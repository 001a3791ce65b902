use simaris::embed::{embed_input, HybridConfig, OllamaEmbedClient, BGE_M3_MODEL, OLLAMA_DEFAULT_URL};

#[test]
fn client_holds_config() {
    let c = OllamaEmbedClient::bge_m3();
    assert_eq!(c.model(), BGE_M3_MODEL);
    assert_eq!(c.base_url(), OLLAMA_DEFAULT_URL);
}

#[test]
fn custom_url_and_model() {
    let c = OllamaEmbedClient::new("http://example:1234", "nomic-embed-text-v1.5");
    assert_eq!(c.base_url(), "http://example:1234");
    assert_eq!(c.model(), "nomic-embed-text-v1.5");
}

#[test]
fn embed_input_pure_prose_unchanged() {
    let content = "Just a prose body with no frontmatter.\n";
    assert_eq!(embed_input(content), content);
}

#[test]
fn embed_input_strips_frontmatter_keeps_body() {
    let content = "---\nrefs:\n  - 019d-aaaa\n  - 019d-bbbb\n---\nthe actual prose";
    assert_eq!(embed_input(content), "the actual prose");
}

#[test]
fn embed_input_prepends_scope_when_present() {
    let content = "---\nscope: \"skill reflection — analysis\"\nrefs:\n  - 019d-aaaa\n---\nbody text\n";
    assert_eq!(
        embed_input(content),
        "skill reflection — analysis\n\nbody text\n"
    );
}

#[test]
fn embed_input_scope_unquoted_supported() {
    let content = "---\nscope: plain scope value\nrefs:\n  - x\n---\nbody";
    assert_eq!(embed_input(content), "plain scope value\n\nbody");
}

#[test]
fn embed_input_scope_single_quoted_supported() {
    let content = "---\nscope: 'single quoted'\n---\nbody";
    assert_eq!(embed_input(content), "single quoted\n\nbody");
}

#[test]
fn embed_input_no_scope_returns_body_only() {
    let content = "---\nrefs:\n  - a\n  - b\nevidence: \"some doc\"\n---\nbody only\n";
    assert_eq!(embed_input(content), "body only\n");
}

#[test]
fn embed_input_trailing_fence_without_newline() {
    let content = "---\nscope: trailing\n---";
    // No body, scope preserved.
    assert_eq!(embed_input(content), "trailing\n\n");
}

#[test]
fn embed_input_unclosed_fence_falls_back_to_content() {
    let content = "---\nscope: never closed\nstill yaml-ish";
    assert_eq!(embed_input(content), content);
}

#[test]
fn embed_input_indented_scope_ignored() {
    // `scope:` only inside a nested mapping — not a top-level key, so
    // ignored. Body still returned cleanly.
    let content = "---\nnested:\n  scope: inner\n---\nthe body\n";
    assert_eq!(embed_input(content), "the body\n");
}

#[test]
fn embed_input_refs_uuids_dropped() {
    let content = "---\nscope: \"skill reflection\"\nrefs:\n  - 019d-aaaa\n  - 019d-bbbb\n  - 019d-cccc\n---\nreal prose here\n";
    let out = embed_input(content);
    assert!(out.starts_with("skill reflection"), "scope missing: {out}");
    assert!(out.contains("real prose here"), "body missing: {out}");
    assert!(!out.contains("019d-aaaa"), "refs leaked: {out}");
    assert!(!out.contains("019d-bbbb"), "refs leaked: {out}");
}

#[test]
fn embed_input_empty_scope_value_returns_body() {
    let content = "---\nscope:   \n---\nbody\n";
    assert_eq!(embed_input(content), "body\n");
}

#[test]
fn embed_input_crlf_closing_fence_is_not_a_fence() {
    let content = "---\nscope: x\r\n---\r\nbody";
    assert_eq!(embed_input(content), content);
}

#[test]
fn vector_store_directories() {
    let (a, b) = simaris::embed::vec_dirs(None, None, "/home/me", "bge-m3");
    assert_eq!(a, "/home/me/.simaris/vec/bge-m3");
    assert_eq!(b, "/home/me/.simaris/vec/bge-m3/tantivy");
    let (a, b) = simaris::embed::vec_dirs(None, Some("/data/s/"), "/home/me", "m");
    assert_eq!(a, "/data/s/vec/m");
    assert_eq!(b, "/data/s/vec/m/tantivy");
    let (a, b) = simaris::embed::vec_dirs(Some("/v"), Some("/data"), "/home/me", "m");
    assert_eq!(a, "/v");
    assert_eq!(b, "/v/tantivy");
}

#[test]
fn hybrid_config_from_environment_values() {
    let c = HybridConfig::locate(None, None, None, None, Some("/home/me")).unwrap();
    assert_eq!(c.model, BGE_M3_MODEL);
    assert_eq!(c.ollama_url, OLLAMA_DEFAULT_URL);
    assert_eq!(c.lance_dir, "/home/me/.simaris/vec/bge-m3");
    assert_eq!(c.tantivy_dir, "/home/me/.simaris/vec/bge-m3/tantivy");

    let c = HybridConfig::locate(Some("nomic"), Some("http://gpu:11434"), None, Some("/srv/s"), None).unwrap();
    assert_eq!(c.model, "nomic");
    assert_eq!(c.ollama_url, "http://gpu:11434");
    assert_eq!(c.lance_dir, "/srv/s/vec/nomic");

    let c = HybridConfig::locate(None, None, Some("/v"), None, None).unwrap();
    assert_eq!(c.lance_dir, "/v");
    assert_eq!(c.tantivy_dir, "/v/tantivy");

    let e = HybridConfig::locate(None, None, None, None, None).unwrap_err();
    assert_eq!(e, "no $HOME for vec dir discovery");
}

#[test]
fn absolute_model_name_replaces_the_base_like_path_join() {
    let (a, b) = simaris::embed::vec_dirs(None, Some("/srv/s"), "/home/me", "/models/custom");
    assert_eq!(a, "/models/custom");
    assert_eq!(b, "/models/custom/tantivy");
    assert_eq!(std::path::Path::new("/srv/s/vec").join("/models/custom").to_str().unwrap(), a);
}
