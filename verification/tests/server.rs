use simaris::digest::{check_digest, digest_json, digest_prompt, DigestResult, DigestUnit};
use simaris::dream::{activity_timestamp, archive_decisions, DecayCandidate};
use simaris::server::{
    action_kind, add_skipped_id, archive_plan, cluster_args, default_stale_days, edit_args,
    filter_skipped, merged_tags, parse_bool, retype_target, scan_args, search_plan, truncate,
    use_cluster_cache, ActionBody, ActionKind, ClustersQuery, EditBody, ScanQuery, SearchParams,
    SearchPlan,
};

fn s(v: &[&str]) -> Vec<String> {
    v.iter().map(|x| x.to_string()).collect()
}

#[test]
fn cluster_listing_args_and_cache() {
    let q = ClustersQuery::default();
    assert!(use_cluster_cache(&q));
    assert_eq!(cluster_args(&q), s(&["cluster", "--json", "--all"]));
    let q2 = ClustersQuery { refresh: false, tag: Some("x".into()), type_: Some("fact".into()) };
    assert!(!use_cluster_cache(&q2));
    assert_eq!(cluster_args(&q2), s(&["cluster", "--json", "--tag", "x", "--type", "fact"]));
}

#[test]
fn skipped_ids_are_added_once() {
    let mut ids = s(&["a"]);
    add_skipped_id(&mut ids, "b");
    add_skipped_id(&mut ids, "a");
    assert_eq!(ids, s(&["a", "b"]));
}

#[test]
fn skipped_clusters_are_filtered_and_recounted() {
    let clusters = vec![
        ("c1".to_string(), s(&["near-dup", "type-confused"])),
        ("c2".to_string(), s(&["orphan"])),
        ("c3".to_string(), s(&["near-dup"])),
    ];
    let (kept, n, mut tally) = filter_skipped(clusters, &s(&["c2"]));
    assert_eq!(n, 2);
    assert_eq!(kept[1].0, "c3");
    tally.sort();
    assert_eq!(tally, vec![("near-dup".to_string(), 2), ("type-confused".to_string(), 1)]);
}

#[test]
fn action_requests_are_classified() {
    let mut b = ActionBody { cluster_id: "c".into(), action: "ARCHIVE".into(), ..ActionBody::default() };
    assert_eq!(action_kind(&b), ActionKind::Archive);
    b.action = "Merge".into();
    assert_eq!(action_kind(&b), ActionKind::Merge);
    b.action = "explode".into();
    assert_eq!(action_kind(&b), ActionKind::Unknown("unknown action: explode".into()));
    b.member_ids = (0..51).map(|i| i.to_string()).collect();
    assert_eq!(action_kind(&b), ActionKind::TooMany("member_ids count 51 exceeds cap 50".into()));
}

#[test]
fn archive_plan_skips_canonical() {
    let b = ActionBody {
        cluster_id: "c".into(),
        action: "archive".into(),
        canonical_id: Some("019dbb6e-1887".into()),
        member_ids: s(&["m1", "019dbb6e-1887", "m2"]),
        new_type: None,
    };
    let (tag, ms) = archive_plan(&b).unwrap();
    assert_eq!(tag, "merge-source-019dbb6e");
    assert_eq!(ms, s(&["m1", "m2"]));
    let none = ActionBody { canonical_id: None, ..b.clone() };
    assert_eq!(archive_plan(&none).unwrap_err(), "archive action requires canonical_id");
    let empty = ActionBody { canonical_id: Some(String::new()), ..b };
    assert_eq!(archive_plan(&empty).unwrap_err(), "canonical_id must not be empty");
}

#[test]
fn merged_tag_lists() {
    assert_eq!(merged_tags(Some(s(&["a", "b"])), "m"), "a,b,m");
    assert_eq!(merged_tags(Some(s(&["m", "b"])), "m"), "m,b");
    assert_eq!(merged_tags(None, "m"), "m");
}

#[test]
fn retype_needs_a_type() {
    let b = ActionBody { new_type: Some("idea".into()), ..ActionBody::default() };
    assert_eq!(retype_target(&b), Ok("idea".to_string()));
    let e = ActionBody { new_type: Some(String::new()), ..ActionBody::default() };
    assert_eq!(retype_target(&e), Err("new_type must not be empty".to_string()));
    assert_eq!(retype_target(&ActionBody::default()), Err("retype action requires new_type".to_string()));
}

#[test]
fn flags_and_snippets() {
    assert!(parse_bool(&Some(" TRUE ".into())));
    assert!(parse_bool(&Some("1".into())));
    assert!(parse_bool(&Some("On".into())));
    assert!(!parse_bool(&Some("no".into())));
    assert!(!parse_bool(&None));
    let long = "x".repeat(250);
    let t = truncate(&long);
    assert_eq!(t.chars().count(), 241);
    assert!(t.ends_with('…'));
    assert_eq!(truncate("short"), "short");
    assert_eq!(truncate(&"y".repeat(240)), "y".repeat(240));
}

#[test]
fn scan_and_edit_args() {
    assert_eq!(default_stale_days(), 30);
    assert_eq!(scan_args("stale", ScanQuery { stale_days: 45 }), s(&["scan", "--cat", "stale", "--stale-days", "45"]));
    assert_eq!(scan_args("orphaned", ScanQuery { stale_days: 45 }), s(&["scan", "--cat", "orphaned"]));
    let b = EditBody { type_: Some(String::new()), tags: Some("a,b".into()), ..EditBody::default() };
    assert_eq!(edit_args("u1", &b), Ok(s(&["edit", "u1", "--json", "--tags", "a,b"])));
    let nothing = EditBody { type_: Some(String::new()), ..EditBody::default() };
    assert_eq!(
        edit_args("u1", &nothing),
        Err("edit body must set at least one of: content, type, tags, source".to_string())
    );
}

#[test]
fn search_requests_are_planned() {
    let p = SearchParams { q: Some("  ".into()), type_: Some("fact".into()), include_archived: Some("yes".into()) };
    match search_plan(&p) {
        SearchPlan::List(a) => assert_eq!(a, s(&["list", "--json", "--type", "fact", "--include-archived"])),
        _ => panic!("expected list"),
    }
    let p2 = SearchParams { q: Some(" deploy ".into()), type_: Some(String::new()), include_archived: None };
    match search_plan(&p2) {
        SearchPlan::Ask { query, ask, search } => {
            assert_eq!(query, "deploy");
            assert_eq!(ask, s(&["ask", "deploy", "--json"]));
            assert_eq!(search, s(&["search", "deploy", "--json"]));
        }
        _ => panic!("expected ask"),
    }
}

#[test]
fn digest_reply_is_checked() {
    let p = digest_prompt("RAW TEXT");
    assert!(p.starts_with("You are a knowledge extraction system."));
    assert!(p.contains("Content to process:\n---\nRAW TEXT\n---\n\nReturn ONLY valid JSON. No other text."));
    let j = digest_json("{\"result\": \"...\"}", Some("```\n{\"units\": []}\n```")).unwrap();
    assert_eq!(j, "{\"units\": []}");
    assert!(digest_json("oops", None).unwrap_err().starts_with("Failed to parse the model reply envelope; stdout preview: oops"));
    let unit = |t: &str| DigestUnit { unit_type: t.into(), content: "c".into(), tags: vec![], is_overview: false };
    assert_eq!(check_digest("{}", None).unwrap_err(), "Failed to parse LLM response: {}");
    assert_eq!(check_digest("j", Some(DigestResult { units: vec![] })).unwrap_err(), "LLM returned no units");
    assert_eq!(
        check_digest("j", Some(DigestResult { units: vec![unit("fact"), unit("memo"), unit("bogus")] })).unwrap_err(),
        "LLM returned invalid type: memo"
    );
    assert_eq!(check_digest("j", Some(DigestResult { units: vec![unit("aspect")] })).unwrap().units.len(), 1);
}

#[test]
fn decay_archives_unpinned_units() {
    assert_eq!(activity_timestamp("2024-02-01 00:00:00", "2024-01-01 00:00:00"), "2024-02-01 00:00:00");
    assert_eq!(activity_timestamp("2023-02-01 00:00:00", "2024-01-01 00:00:00"), "2024-01-01 00:00:00");
    let c = |id: &str, below: bool, kids: bool, slug: bool| DecayCandidate {
        id: id.into(),
        content: format!("{id} head\nbody"),
        below_threshold: below,
        has_children: kids,
        has_slug: slug,
    };
    let mut cands = vec![c("a", true, false, false), c("b", true, true, false), c("c", true, false, true), c("d", false, false, false)];
    for i in 0..12 {
        cands.push(c(&format!("z{i}"), true, false, false));
    }
    let (ids, sample) = archive_decisions(&cands);
    assert_eq!(ids.len(), 13);
    assert_eq!(ids[0], "a");
    assert_eq!(sample.len(), 10);
    assert_eq!(sample[0].headline, "a head");
    assert_eq!(sample[9].id, "z8");
}

#[test]
fn state_files_live_in_the_state_directory() {
    let dir = simaris::server::state_dir(Some("/home/me"));
    assert_eq!(dir, "/home/me/.simaris-server");
    assert_eq!(simaris::server::state_dir(None), "./.simaris-server");
    assert_eq!(simaris::server::cache_path(&dir), "/home/me/.simaris-server/clusters.cache.json");
    assert_eq!(simaris::server::skipped_path(&dir), "/home/me/.simaris-server/skipped.json");
    assert_eq!(simaris::server::audit_path(&dir), "/home/me/.simaris-server/audit.log");
}
