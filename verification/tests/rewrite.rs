use simaris::rewrite::{buffers_equal, compose_buffer, skeleton_for, strip_header_comments};

const ID: &str = "019abc00-0000-7000-8000-000000000000";

#[test]
fn skeleton_procedure_has_trigger() {
    assert!(skeleton_for("procedure").contains("trigger:"));
    assert!(skeleton_for("procedure").contains("prereq:"));
}

#[test]
fn skeleton_aspect_has_role() {
    assert!(skeleton_for("aspect").contains("role:"));
}

#[test]
fn skeleton_preference_empty() {
    assert!(skeleton_for("preference").is_empty());
}

#[test]
fn skeleton_fact_exact() {
    assert_eq!(skeleton_for("fact"), "---\nscope: \"\"\nevidence: \"\"\nrefs: []\n---\n\n");
    assert_eq!(skeleton_for("idea"), "");
}

#[test]
fn compose_structured_keeps_verbatim() {
    let content = "---\ntrigger: x\n---\nbody\n";
    let buf = compose_buffer(ID, "procedure", content, false);
    let stripped = strip_header_comments(&buf);
    assert!(stripped.contains(content), "structured verbatim: {stripped}");
    assert_eq!(stripped.trim_start_matches('\n'), content);
}

#[test]
fn compose_prose_prepends_skeleton() {
    let buf = compose_buffer(ID, "procedure", "plain body\n", false);
    let stripped = strip_header_comments(&buf);
    assert!(
        stripped.trim_start().starts_with("---\n"),
        "has skeleton fence: {stripped}"
    );
    assert!(stripped.contains("plain body"), "body preserved: {stripped}");
}

#[test]
fn compose_template_only_skeleton_no_body() {
    let buf = compose_buffer(ID, "procedure", "plain body\n", true);
    let stripped = strip_header_comments(&buf);
    assert!(!stripped.contains("plain body"), "body excluded: {stripped}");
    assert!(stripped.contains("trigger:"), "has skeleton: {stripped}");
}

#[test]
fn compose_header_names_id_and_type() {
    let buf = compose_buffer("abc", "idea", "x", false);
    assert_eq!(
        buf,
        "# simaris rewrite -- id: abc  type: idea\n# Save + quit to apply. Empty file to abort.\n# Comment lines starting `#` at top stripped automatically.\n\nx"
    );
}

#[test]
fn strip_removes_leading_hash_lines_until_blank() {
    let input = "# hello\n# world\n\nreal content\n";
    assert_eq!(strip_header_comments(input), "real content\n");
}

#[test]
fn strip_stops_at_fence() {
    let input = "# comment\n---\ntitle: x\n---\nbody\n";
    let out = strip_header_comments(input);
    assert!(out.starts_with("---\n"), "stops at fence: {out}");
}

#[test]
fn strip_preserves_fence_when_separator_present() {
    let input = "# simaris rewrite -- id: x  type: aspect\n# Save + quit to apply.\n\n---\nrole: \"\"\n---\nbody\n";
    let out = strip_header_comments(input);
    assert!(out.starts_with("---\n"), "fence at byte 0: {out:?}");
}

#[test]
fn strip_preserves_body_hash_headers() {
    let input = "# header comment\n\n# Actual Heading\nbody\n";
    let out = strip_header_comments(input);
    assert_eq!(out, "# Actual Heading\nbody\n");
}

#[test]
fn strip_all_comments_returns_empty() {
    let input = "# only\n# comments\n";
    assert_eq!(strip_header_comments(input), "");
}

#[test]
fn buffers_equal_ignores_trailing_newline() {
    assert!(buffers_equal("hello\n", "hello\n\n"));
    assert!(buffers_equal("hello\n", "hello"));
}

#[test]
fn buffers_equal_ignores_leading_blank() {
    assert!(buffers_equal("\nhello\n", "hello\n"));
}

#[test]
fn buffers_equal_detects_content_change() {
    assert!(!buffers_equal("hello\n", "world\n"));
}

#[test]
fn buffers_equal_ignores_trailing_spaces_per_line() {
    assert!(buffers_equal("a  \nb\t\n", "a\nb"));
    assert!(!buffers_equal("a\n\nb", "a\nb"));
}

#[test]
fn compose_then_strip_removes_only_header() {
    let buf = compose_buffer(ID, "procedure", "plain body\n", false);
    let stripped = strip_header_comments(&buf);
    assert!(!stripped.contains("simaris rewrite -- id:"), "header gone: {stripped}");
    assert!(!stripped.contains("Save + quit to apply"), "header gone: {stripped}");
    assert!(stripped.contains("plain body"), "body preserved: {stripped}");
    assert!(buffers_equal(&stripped, &stripped));
}
