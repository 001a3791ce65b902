use simaris::emit::{
    emit_plan, first_paragraph, parse_managed_slug, render_agent_file, sweep_targets,
    yaml_single_quote, AspectEntry,
};

#[test]
fn first_paragraph_single_line() {
    assert_eq!(first_paragraph("hello world"), "hello world");
}

#[test]
fn first_paragraph_stops_at_blank() {
    let content = "one\ntwo\n\nthree";
    assert_eq!(first_paragraph(content), "one two");
}

#[test]
fn first_paragraph_skips_leading_blanks() {
    assert_eq!(first_paragraph("\n\nhello\n"), "hello");
}

#[test]
fn first_paragraph_empty() {
    assert_eq!(first_paragraph(""), "");
}

#[test]
fn yaml_single_quote_escapes_inner() {
    assert_eq!(yaml_single_quote("it's fine"), "'it''s fine'");
}

#[test]
fn render_agent_file_shape() {
    let out = render_agent_file("my-agent", "# Title\n\nBody line");
    assert!(out.starts_with("---\n"));
    assert!(out.contains("\nname: my-agent\n"));
    assert!(out.contains("\ndescription: '# Title'\n"));
    assert!(out.contains("\nsimaris-managed: true\n"));
    assert!(out.ends_with("\n---\n# Title\n\nBody line\n"));
}

#[test]
fn render_agent_file_keeps_trailing_newline() {
    let out = render_agent_file("a", "x\n");
    assert_eq!(out, "---\nname: a\ndescription: 'x'\nsimaris-managed: true\n---\nx\n");
}

#[test]
fn parse_managed_slug_detects_marker() {
    let text = "---\nname: managed\ndescription: 'x'\nsimaris-managed: true\n---\nbody\n";
    assert_eq!(parse_managed_slug(text), Some("managed".to_string()));
}

#[test]
fn parse_managed_slug_ignores_unmanaged() {
    let text = "---\nname: hand\n---\nbody\n";
    assert_eq!(parse_managed_slug(text), None);
}

#[test]
fn parse_managed_slug_ignores_no_frontmatter() {
    assert_eq!(parse_managed_slug("just some content\n"), None);
}

#[test]
fn parse_managed_slug_marker_after_fence_does_not_count() {
    let text = "---\nname: x\n---\nsimaris-managed: true\n";
    assert_eq!(parse_managed_slug(text), None);
}

fn aspect(id: &str, content: &str, slugs: &[&str]) -> AspectEntry {
    AspectEntry {
        id: id.to_string(),
        content: content.to_string(),
        slugs: slugs.iter().map(|s| s.to_string()).collect(),
    }
}

#[test]
fn emit_plan_writes_each_slug_and_skips_slugless() {
    let aspects = vec![
        aspect("u-2", "Body two", &["zeta", "alpha"]),
        aspect("u-9", "No slug here", &[]),
        aspect("u-1", "Body one\n", &["mid"]),
        aspect("u-0", "Also none", &[]),
    ];
    let (files, result) = emit_plan(&aspects);
    let names: Vec<&str> = files.iter().map(|f| f.slug.as_str()).collect();
    assert_eq!(names, vec!["zeta", "alpha", "mid"]);
    assert_eq!(files[2].body, render_agent_file("mid", "Body one\n"));
    assert_eq!(result.written, vec!["alpha", "mid", "zeta"]);
    assert_eq!(result.skipped_uuids, vec!["u-0", "u-9"]);
    assert!(result.swept.is_empty());
}

#[test]
fn sweep_removes_only_stale_managed_files() {
    let managed = vec![Some("old".to_string()), None, Some("live".to_string()), Some("gone".to_string())];
    let live = vec!["live".to_string()];
    assert_eq!(sweep_targets(&managed, &live), vec![0, 3]);
}

#[test]
fn rendered_agent_file_is_recognised_as_managed() {
    for content in ["# Title\n\nBody", "", "it's\r\nmulti\nline\n\nrest"] {
        let f = render_agent_file("my-agent_2", content);
        assert_eq!(parse_managed_slug(&f), Some("my-agent_2".to_string()));
    }
}
