use simaris::frontmatter::{parse, render_markdown};

#[test]
fn parse_no_frontmatter() {
    let p = parse("just prose");
    assert!(p.frontmatter.is_none());
    assert_eq!(p.body, "just prose");
}

#[test]
fn parse_roundtrip() {
    let src = "---\ntitle: hello\ntags: [a, b]\n---\nbody text\n";
    let p = parse(src);
    assert!(p.frontmatter.is_some());
    assert_eq!(p.body, "body text\n");
}

#[test]
fn parse_malformed_falls_back() {
    let src = "---\n: : invalid yaml :: :\n---\nbody\n";
    let p = parse(src);
    assert!(p.frontmatter.is_none());
    assert_eq!(p.body, src);
}

#[test]
fn render_scalar() {
    let src = "---\ntitle: hello\n---\n";
    let p = parse(src);
    let md = render_markdown(p.frontmatter.as_ref().unwrap());
    assert!(md.contains("**title:** hello"));
}

#[test]
fn render_short_list_inline() {
    let src = "---\ntags: [a, b, c]\n---\n";
    let p = parse(src);
    let md = render_markdown(p.frontmatter.as_ref().unwrap());
    assert!(md.contains("**tags:** a, b, c"));
}

#[test]
fn render_long_list_bulleted() {
    let src = "---\nitems: [a, b, c, d]\n---\n";
    let p = parse(src);
    let md = render_markdown(p.frontmatter.as_ref().unwrap());
    assert!(md.contains("**items:**"));
    assert!(md.contains("- a"));
    assert!(md.contains("- d"));
}

#[test]
fn render_keeps_document_order_and_kinds() {
    let yaml = "name: x\ncount: 3\nflag: true\nempty:\nnested:\n  a: 1\nmix: [1, {b: 2}]\n";
    assert_eq!(
        render_markdown(yaml),
        "**name:** x\n**count:** 3\n**flag:** true\n**empty:**\n**mix:**\n- 1\n"
    );
}

#[test]
fn render_non_mapping_is_empty() {
    assert_eq!(render_markdown("- a\n- b\n"), "");
}

#[test]
fn from_file_with_mapping_frontmatter_is_accepted() {
    assert!(simaris::frontmatter::validate_from_file("---\ntrigger: x\n---\nbody\n").is_ok());
    assert!(simaris::frontmatter::validate_from_file("plain body").is_ok());
}

#[test]
fn from_file_with_list_frontmatter_is_refused() {
    let r = simaris::frontmatter::validate_from_file("---\n- a\n- b\n---\nbody\n");
    assert_eq!(r, Err("frontmatter in --from-file is not a YAML mapping".to_string()));
}

#[test]
fn refs_are_read_from_the_frontmatter_list() {
    let c = "---\nrole: r\nrefs:\n  - verifier (019d93)\n  - other\n  - 3\n---\nbody\n";
    assert_eq!(
        simaris::frontmatter::extract_refs(c),
        vec!["verifier (019d93)".to_string(), "other".to_string()]
    );
    assert_eq!(simaris::frontmatter::extract_refs("---\nrefs: one\n---\n"), vec!["one".to_string()]);
    assert!(simaris::frontmatter::extract_refs("no frontmatter").is_empty());
}
