use simaris::ask::{
    aspects_to_inject, assemble_prime, matched_units, order_gathered, relevance_prompt, reply_json,
    sanitize_fts_query, select_relevant, synthesis_prompt, ContextUnit, LinkInfo,
};
use simaris::context::{after_preamble, backfill_start, call_interval_ms, PreambleResp, estimated_cost_nano_usd, build_context_block, build_prompt, estimate_input_tokens, project_tokens, ContextBlock};
use simaris::model::{LinkedUnit, UnitCore};

fn link(to: &str) -> LinkInfo {
    LinkInfo { unit_id: to.into(), relationship: "related_to".into(), title: format!("t-{to}") }
}

fn cu(id: &str, ty: &str, direct: bool, tags: &[&str]) -> ContextUnit {
    ContextUnit {
        id: id.into(),
        content: format!("{id} body"),
        unit_type: ty.into(),
        tags: tags.iter().map(|t| t.to_string()).collect(),
        source: "test".into(),
        links_to: vec![],
        links_from: vec![],
        is_direct_match: direct,
    }
}

#[test]
fn question_query_drops_stop_words() {
    assert_eq!(sanitize_fts_query("How do I deploy the app?"), "\"deploy\" OR \"app\"");
    assert_eq!(sanitize_fts_query("what is it"), "\"what\" OR \"is\" OR \"it\"");
    assert_eq!(sanitize_fts_query("--"), "");
    assert_eq!(sanitize_fts_query("pre-push hooks"), "\"pre\" OR \"push\" OR \"hooks\"");
}

#[test]
fn matched_units_keep_outside_links_only() {
    let mut a = cu("a", "fact", true, &["x"]);
    a.links_to = vec![link("b"), link("z")];
    a.links_from = vec![link("y"), link("a")];
    let b = cu("b", "fact", false, &[]);
    let out = matched_units(&vec![a, b]);
    assert_eq!(out.len(), 2);
    let ids: Vec<&str> = out[0].links.iter().map(|l| l.unit_id.as_str()).collect();
    assert_eq!(ids, vec!["z", "y"]);
    assert_eq!(out[0].tags, vec!["x"]);
    assert!(out[1].links.is_empty());
}

#[test]
fn relevance_prompt_lists_units() {
    let p = relevance_prompt("q?", &vec![cu("a", "fact", true, &["t1", "t2"]), cu("b", "idea", false, &[])]);
    assert!(p.starts_with("You are a relevance filter."));
    assert!(p.contains("Query: q?\n\nUnits:\n- id=a type=fact tags=[t1, t2]: a body\n- id=b type=idea: b body\n\nReturn ONLY JSON"));
    assert!(p.ends_with("{\"relevant_ids\": [\"id1\", \"id2\"]}"));
}

#[test]
fn selection_falls_back_when_nothing_kept() {
    let ids = vec!["a".to_string(), "b".to_string(), "c".to_string()];
    assert_eq!(select_relevant(&ids, Some(vec!["c".into(), "a".into()])), (vec![0, 2], false));
    assert_eq!(select_relevant(&ids, Some(vec!["q".into()])), (vec![0, 1, 2], true));
    assert_eq!(select_relevant(&ids, None), (vec![0, 1, 2], true));
}

#[test]
fn reply_json_is_taken_out_of_the_envelope_result() {
    let ids = vec!["a".to_string(), "b".to_string()];
    let fenced = "```json\n{\"relevant_ids\": [\"b\"]}\n```";
    assert_eq!(reply_json(Some(fenced)).unwrap(), "{\"relevant_ids\": [\"b\"]}");
    let prose = " Here you go: {\"relevant_ids\": [\"a\", \"b\"]} done ";
    assert_eq!(reply_json(Some(prose)).unwrap(), "{\"relevant_ids\": [\"a\", \"b\"]}");
    assert_eq!(reply_json(Some("nothing")).unwrap(), "nothing");
    assert_eq!(reply_json(None), None);
    // No envelope, or an answer without ids: everything is kept.
    assert_eq!(select_relevant(&ids, None), (vec![0, 1], true));
    assert_eq!(select_relevant(&ids, Some(vec!["b".into()])), (vec![1], false));
}

#[test]
fn prime_sections_and_caps() {
    let mut gathered = vec![
        cu("asp1", "aspect", true, &[]),
        cu("pref", "preference", true, &[]),
        cu("odd", "custom", true, &[]),
    ];
    for i in 0..22 {
        gathered.push(cu(&format!("f{i:02}"), "fact", false, &[]));
    }
    let injected = vec![cu("asp0", "aspect", true, &[])];
    let r = assemble_prime("task", &gathered, &injected, &vec!["asp0".to_string()]);
    let labels: Vec<&str> = r.sections.iter().map(|s| s.label.as_str()).collect();
    assert_eq!(labels, vec!["Aspects", "Preferences", "Context"]);
    assert_eq!(r.sections[0].units[0].id, "asp0");
    assert!(r.sections[0].units[0].full);
    assert!(!r.sections[0].units[1].full);
    assert!(r.sections[1].units[0].full);
    assert_eq!(r.sections[2].units.len(), 20);
    assert_eq!(r.unit_count, 23);
    let empty = assemble_prime("task", &vec![], &injected, &vec!["asp0".to_string()]);
    assert!(empty.sections.is_empty());
    assert_eq!(empty.unit_count, 0);
}

#[test]
fn gathered_order_direct_first() {
    let out = order_gathered(vec![cu("c", "fact", false, &[]), cu("b", "fact", true, &[]), cu("a", "fact", false, &[])]);
    let ids: Vec<&str> = out.iter().map(|u| u.id.as_str()).collect();
    assert_eq!(ids, vec!["b", "a", "c"]);
}

#[test]
fn synthesis_prompt_holds_units() {
    let p = synthesis_prompt("why?", &vec![cu("a", "fact", true, &["x", "y"])]);
    assert!(p.starts_with("You are a knowledge RETRIEVAL system."));
    assert!(p.ends_with("Context: why?\n\nKnowledge units:\n[a] type=fact source=test tags=x, y\na body\n---\n"));
}

#[test]
fn build_prompt_includes_atom_and_context() {
    let unit = UnitCore {
        id: "u1".into(),
        content: "# Test Atom\n\nbody".into(),
        unit_type: "fact".into(),
        tags: vec![],
    };
    let ctx = ContextBlock {
        parent_slug: Some("parent-stub".into()),
        related: vec!["A".into(), "B".into()],
        part_of_children: vec!["C".into()],
    };
    let p = build_prompt(&unit, &ctx);
    assert!(p.contains("ATOM:"));
    assert!(p.contains("# Test Atom"));
    assert!(p.contains("CONTEXT:"));
    assert!(p.contains("parent-stub"));
    assert!(p.contains("A; B"));
    assert!(p.contains("C"));
}

fn lu(rel: &str, slug: Option<&str>, headline: &str) -> LinkedUnit {
    LinkedUnit {
        from_id: "x".into(),
        to_id: "y".into(),
        relationship: rel.into(),
        slug: slug.map(String::from),
        headline: headline.into(),
    }
}

#[test]
fn context_block_from_links() {
    let out = vec![
        lu("related_to", None, "R1"),
        lu("part_of", None, "P-no-slug"),
        lu("part_of", Some("second"), "P2"),
        lu("related_to", None, "R2"),
        lu("related_to", None, "R3"),
        lu("related_to", None, "R4"),
    ];
    let inc = vec![lu("part_of", None, "C1"), lu("related_to", None, "X")];
    let b = build_context_block(&out, &inc);
    assert_eq!(b.parent_slug, None);
    assert_eq!(b.related, vec!["R1", "R2", "R3"]);
    assert_eq!(b.part_of_children, vec!["C1"]);
    let b2 = build_context_block(&vec![lu("part_of", Some("p"), "P")], &vec![]);
    assert_eq!(b2.parent_slug.as_deref(), Some("p"));
    let u = UnitCore { id: "u".into(), content: "c".into(), unit_type: "fact".into(), tags: vec![] };
    let p = build_prompt(&u, &b2);
    assert!(p.ends_with("ATOM:\nc\n\nCONTEXT:\n- parent slug: p\n"));
}

#[test]
fn token_projection() {
    assert_eq!(estimate_input_tokens("abc"), 1);
    assert_eq!(estimate_input_tokens("abcdefghi"), 2);
    assert_eq!(project_tokens(400, 50, 2, 10), (2000, 250));
    assert_eq!(project_tokens(400, 50, 0, 10), (0, 0));
    assert_eq!(project_tokens(u64::MAX, 1, 1, 2), (u64::MAX, 2));
}

#[test]
fn primary_aspect_past_the_cap_is_kept_in_full() {
    let gathered: Vec<ContextUnit> = (0..25).map(|i| cu(&format!("a{i:02}"), "aspect", true, &[])).collect();
    let r = assemble_prime("task", &gathered, &vec![], &vec!["a24".to_string()]);
    assert_eq!(r.sections[0].label, "Aspects");
    let units = &r.sections[0].units;
    // 20 directory entries, then the primary one beyond the cap
    assert_eq!(units.len(), 21);
    let last = units.last().unwrap();
    assert_eq!(last.id, "a24");
    assert!(last.full);
    assert!(units[..20].iter().all(|u| !u.full));
}

#[test]
fn cost_estimate_matches_haiku_pricing() {
    // 1M input tokens at $0.80 + 1M output at $4.00 = $4.80.
    let cost = estimated_cost_nano_usd(1_000_000, 1_000_000) as f64 / 1_000_000_000.0;
    assert!((cost - 4.80).abs() < 1e-9);
    assert_eq!(estimated_cost_nano_usd(1_000_000, 1_000_000), 4_800_000_000);
}

#[test]
fn primer_injects_requested_aspects_not_already_gathered() {
    let gathered = vec![cu("a1", "aspect", true, &[]), cu("f1", "fact", true, &[])];
    let cands = vec![
        cu("a1", "aspect", true, &[]),
        cu("p1", "procedure", true, &[]),
        cu("a2", "aspect", true, &[]),
        cu("a3", "aspect", true, &[]),
    ];
    let kept: Vec<String> = aspects_to_inject(&gathered, cands).into_iter().map(|u| u.id).collect();
    assert_eq!(kept, vec!["a2".to_string(), "a3".to_string()]);
    assert!(aspects_to_inject(&gathered, vec![]).is_empty());
}

#[test]
fn backfill_paces_calls_and_sums_usage() {
    assert_eq!(call_interval_ms(50), 1200);
    assert_eq!(call_interval_ms(0), 60_000);
    assert_eq!(call_interval_ms(70_000), 0);
    let p = backfill_start();
    let resp = PreambleResp { preamble: "p".into(), input_tokens: 300, output_tokens: 40 };
    let (p, wait) = after_preamble(p, &resp, 200, 1200);
    assert_eq!((p.processed, p.sum_in, p.sum_out), (1, 300, 40));
    assert_eq!(wait, 1000);
    let (p, wait) = after_preamble(p, &resp, 1500, 1200);
    assert_eq!((p.processed, p.sum_in, p.sum_out), (2, 600, 80));
    assert_eq!(wait, 0);
}
