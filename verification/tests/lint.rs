use simaris::lint::{
    check_orphan, check_procedure_no_trigger, decimal_chars, has_trigger, normalize_tag, pair_key,
    shingle_overlap, shingles_3, tokens, Finding,
};
use simaris::dupe::check_dupe;
use simaris::model::UnitCore;
use simaris::rollup::{find_owner, rollup_by_aspect, DivergenceFinding, Graph};
use simaris::tag_audit::check_tags;

fn unit(id: &str, ty: &str, content: &str, tags: &[&str]) -> UnitCore {
    UnitCore {
        id: id.to_string(),
        content: content.to_string(),
        unit_type: ty.to_string(),
        tags: tags.iter().map(|t| t.to_string()).collect(),
    }
}

#[test]
fn shingles_short_falls_back_to_1grams() {
    let s = shingles_3("one two");
    assert_eq!(s.len(), 2);
    assert!(s.contains(&"one".to_string()));
    assert!(s.contains(&"two".to_string()));
}

#[test]
fn shingles_three_word_window() {
    let s = shingles_3("alpha beta gamma delta");
    assert_eq!(s.len(), 2);
    assert!(s.contains(&"alpha|beta|gamma".to_string()));
    assert!(s.contains(&"beta|gamma|delta".to_string()));
}

#[test]
fn shingles_repeated_windows_counted_once() {
    let s = shingles_3("a b c a b c");
    assert_eq!(s, vec!["a|b|c", "b|c|a", "c|a|b"]);
}

#[test]
fn shingle_overlap_counts() {
    let a = shingles_3("alpha beta gamma delta");
    let b = shingles_3("beta gamma delta epsilon");
    assert_eq!(shingle_overlap(&a, &b), (1, 3));
}

#[test]
fn tokens_keep_apostrophes_and_lowercase() {
    assert_eq!(tokens("Lotus's  TEST-case, ok"), vec!["lotus's", "test", "case", "ok"]);
    assert!(tokens("--  ..").is_empty());
}

#[test]
fn has_trigger_frontmatter() {
    let content = "---\ntrigger: foo\ncheck: bar\n---\nbody";
    assert!(has_trigger(content));
}

#[test]
fn has_trigger_empty_frontmatter_no_body() {
    let content = "---\ntrigger:\n---\nbody";
    assert!(!has_trigger(content));
}

#[test]
fn has_trigger_body_line() {
    let content = "no fm\ntrigger: do thing\n";
    assert!(has_trigger(content));
}

#[test]
fn has_trigger_body_double_colon() {
    let content = "no fm\ntrigger:: do thing\n";
    assert!(has_trigger(content));
}

#[test]
fn has_trigger_missing() {
    let content = "no fm\nthis procedure has no trigger declared\n";
    assert!(!has_trigger(content));
}

#[test]
fn has_trigger_blank_after_colons() {
    assert!(!has_trigger("body\n  trigger:::   \n"));
    assert!(has_trigger("body\n  trigger: x\n"));
}

#[test]
fn normalize_tag_folds_case_punctuation_and_plural() {
    assert_eq!(normalize_tag("Auto-Link"), "autolink");
    assert_eq!(normalize_tag("procedures"), "procedure");
    assert_eq!(normalize_tag("bus"), "bus");
    assert_eq!(normalize_tag("--"), "");
}

#[test]
fn pair_key_orders_ids() {
    assert_eq!(pair_key("b", "a"), ("a".to_string(), "b".to_string()));
    assert_eq!(pair_key("a", "b"), ("a".to_string(), "b".to_string()));
}

#[test]
fn decimal_renders_counts() {
    assert_eq!(decimal_chars(0).into_iter().collect::<String>(), "0");
    assert_eq!(decimal_chars(1207).into_iter().collect::<String>(), "1207");
}

#[test]
fn procedure_without_trigger_is_flagged() {
    let units = vec![
        unit("p1", "procedure", "Do the thing\nsteps", &[]),
        unit("p2", "procedure", "Other\ntrigger: when x", &[]),
        unit("f1", "fact", "A fact", &[]),
    ];
    let f = check_procedure_no_trigger(&units);
    assert_eq!(f.len(), 1);
    assert_eq!(f[0].id, "p1");
    assert_eq!(f[0].headline, "Do the thing");
    assert_eq!(f[0].unit_type, "procedure");
}

#[test]
fn orphan_needs_neither_parent_nor_slug() {
    let units = vec![
        unit("a", "fact", "A", &[]),
        unit("b", "fact", "B", &[]),
        unit("c", "fact", "C", &[]),
    ];
    let f = check_orphan(&units, &vec!["a".to_string()], &vec!["b".to_string()]);
    let ids: Vec<&str> = f.iter().map(|x| x.id.as_str()).collect();
    assert_eq!(ids, vec!["c"]);
    assert_eq!(f[0].reason, "no outgoing part_of link and no slug");
}

#[test]
fn check_tags_groups_variants() {
    let units = vec![
        unit("1", "fact", "x", &["procedure", "Procedures", " auto-link "]),
        unit("2", "fact", "x", &["procedure", "autolink", ""]),
        unit("3", "fact", "x", &["procedure", "solo", "AutoLink"]),
    ];
    let (findings, stats) = check_tags(&units);
    assert_eq!(findings.len(), 2);
    assert_eq!(findings[0].canonical, "procedure");
    assert_eq!(findings[0].total_uses, 4);
    assert_eq!(findings[0].variants[0].tag, "procedure");
    assert_eq!(findings[0].variants[0].uses, 3);
    assert_eq!(findings[0].variants[1].tag, "Procedures");
    assert_eq!(
        findings[0].reason,
        "2 variants share normalized form `procedure`: procedure(3), Procedures(1)"
    );
    assert_eq!(findings[1].canonical, "autolink");
    assert_eq!(findings[1].total_uses, 3);
    let tags: Vec<&str> = findings[1].variants.iter().map(|v| v.tag.as_str()).collect();
    assert_eq!(tags, vec!["AutoLink", "auto-link", "autolink"]);
    assert_eq!(stats.distinct, 6);
    assert_eq!(stats.total_uses, 8);
    assert_eq!(stats.singletons, 5);
    assert_eq!(stats.low_use, 5);
}

#[test]
fn check_tags_needs_three_uses() {
    let units = vec![unit("1", "fact", "x", &["auto-link", "autolink"])];
    let (findings, stats) = check_tags(&units);
    assert!(findings.is_empty());
    assert_eq!(stats.distinct, 2);
}

fn finding(id: &str) -> Finding {
    Finding {
        id: id.to_string(),
        headline: String::new(),
        unit_type: "fact".to_string(),
        reason: String::new(),
    }
}

#[test]
fn owner_climbs_part_of_to_slugged_aspect() {
    let g = Graph {
        units: vec![
            unit("asp", "aspect", "The Aspect\nbody", &[]),
            unit("mid", "fact", "Middle", &[]),
            unit("leaf", "fact", "Leaf", &[]),
            unit("loose", "fact", "Loose", &[]),
        ],
        slugs: vec![("zz-aspect".to_string(), "asp".to_string()), ("aa-aspect".to_string(), "asp".to_string())],
        part_of: vec![
            ("leaf".to_string(), "mid".to_string()),
            ("mid".to_string(), "asp".to_string()),
        ],
    };
    assert_eq!(find_owner(&g, "leaf"), Some("asp".to_string()));
    assert_eq!(find_owner(&g, "asp"), Some("asp".to_string()));
    assert_eq!(find_owner(&g, "loose"), None);

    let div = vec![DivergenceFinding {
        id: "mid".to_string(),
        headline: String::new(),
        unit_type: "fact".to_string(),
        parent_a_id: String::new(),
        parent_a_updated: String::new(),
        parent_b_id: String::new(),
        parent_b_updated: String::new(),
        gap_days: 20,
        reason: String::new(),
    }];
    let rows = rollup_by_aspect(
        &g,
        &vec![finding("leaf")],
        &vec![finding("loose"), finding("leaf")],
        &vec![("leaf".to_string(), "loose".to_string())],
        &div,
    );
    assert_eq!(rows.len(), 2);
    assert_eq!(rows[0].aspect_id, "asp");
    assert_eq!(rows[0].headline, "The Aspect");
    assert_eq!(rows[0].slug.as_deref(), Some("aa-aspect"));
    assert_eq!(
        (rows[0].procedure_no_trigger, rows[0].orphan, rows[0].dupe, rows[0].dual_parent_divergence, rows[0].total),
        (1, 1, 1, 1, 4)
    );
    assert_eq!(rows[1].aspect_id, "(unowned)");
    assert_eq!(rows[1].headline, "(no owning aspect)");
    assert_eq!(rows[1].slug, None);
    assert_eq!(rows[1].total, 2);
}

#[test]
fn owner_search_stops_after_depth_limit() {
    // A chain of seven hops: the aspect sits beyond the search depth.
    let mut units = vec![unit("asp", "aspect", "A", &[])];
    let mut part_of = Vec::new();
    let names = ["n0", "n1", "n2", "n3", "n4", "n5", "n6"];
    for w in names.windows(2) {
        part_of.push((w[0].to_string(), w[1].to_string()));
    }
    part_of.push(("n6".to_string(), "asp".to_string()));
    for n in names {
        units.push(unit(n, "fact", n, &[]));
    }
    let g = Graph { units, slugs: vec![("a".to_string(), "asp".to_string())], part_of };
    assert_eq!(find_owner(&g, "n2"), Some("asp".to_string()));
    assert_eq!(find_owner(&g, "n0"), None);
}

fn ratio(p: (usize, usize)) -> f64 {
    if p.1 == 0 {
        0.0
    } else {
        p.0 as f64 / p.1 as f64
    }
}

#[test]
fn jaccard_identical_sets() {
    let a: Vec<String> = ["a", "b", "c"].iter().map(|s| s.to_string()).collect();
    let b = a.clone();
    assert!((ratio(shingle_overlap(&a, &b)) - 1.0).abs() < 1e-9);
}

#[test]
fn jaccard_disjoint() {
    let a: Vec<String> = ["a", "b"].iter().map(|s| s.to_string()).collect();
    let b: Vec<String> = ["c", "d"].iter().map(|s| s.to_string()).collect();
    assert_eq!(ratio(shingle_overlap(&a, &b)), 0.0);
}

#[test]
fn dupe_same_headline_same_type_is_flagged() {
    let units = vec![
        unit("u1", "fact", "Rust uses ownership\nfirst body", &[]),
        unit("u2", "fact", "  rust USES ownership  \nsecond body entirely different", &[]),
        unit("u3", "fact", "Rust uses ownership\nthird", &[]),
        unit("u4", "idea", "Rust uses ownership\nother type", &[]),
    ];
    let r = check_dupe(&units);
    let pairs: Vec<(usize, usize, bool)> = r.iter().map(|c| (c.a, c.b, c.by_headline)).collect();
    assert_eq!(pairs, vec![(0, 1, true), (0, 2, true)]);
    assert!(r.iter().all(|c| c.sim_num == 1 && c.sim_den == 1));
}

#[test]
fn dupe_near_identical_bodies_are_flagged() {
    let body: String = (1..=40).map(|i| format!("w{i}")).collect::<Vec<_>>().join(" ");
    let units = vec![
        unit("b", "fact", &format!("Heading A\n{body}"), &[]),
        unit("a", "fact", &format!("Heading B\n{body}"), &[]),
        unit("c", "fact", "completely unrelated words here", &[]),
    ];
    let r = check_dupe(&units);
    assert_eq!(r.len(), 1);
    assert_eq!((r[0].a, r[0].b, r[0].by_headline), (0, 1, false));
    // 38 shared shingles of 42 in the union
    assert_eq!((r[0].sim_num, r[0].sim_den), (38, 42));
}

#[test]
fn dupe_below_threshold_is_not_flagged() {
    let units = vec![
        unit("x", "fact", "alpha beta gamma delta epsilon", &[]),
        unit("y", "fact", "alpha beta gamma delta omega", &[]),
    ];
    // 2 shared of 4: 0.5
    assert!(check_dupe(&units).is_empty());
}

#[test]
fn dupe_orders_by_similarity_then_id() {
    let body: String = (1..=40).map(|i| format!("w{i}")).collect::<Vec<_>>().join(" ");
    let units = vec![
        unit("z", "fact", &format!("Heading A\n{body}"), &[]),
        unit("y", "fact", &format!("Heading B\n{body}"), &[]),
        unit("m", "note", "Same head\nfoo", &[]),
        unit("n", "note", "same head\nbar", &[]),
    ];
    let r = check_dupe(&units);
    let pairs: Vec<(usize, usize)> = r.iter().map(|c| (c.a, c.b)).collect();
    assert_eq!(pairs, vec![(2, 3), (0, 1)]);
}
