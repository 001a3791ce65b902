use simaris::cluster::{
    build_cluster, classify_cluster, cluster_report, plan_clusters, ClusterGroup, classify_singleton, cluster_id_for, connected_components,
    order_clusters, slug_has_date_stamp, sort_members, split_oversized_cluster,
    suggested_action_for, Edge, UnitSignals,
};
use simaris::partition::UnionFind;

// Cutoffs the caller compares the floating-point averages with.
const NEAR_DUP_AVG_VEC_SIM: f64 = 0.85;
const NEAR_DUP_MIN_CONTENT_OVERLAP: f64 = 0.30;
const TYPE_CONFUSED_AVG_VEC_SIM: f64 = 0.75;

fn classify(members: &[&UnitSignals], avg_vec_sim: f64, avg_content_overlap: f64) -> Vec<String> {
    let owned: Vec<UnitSignals> = members.iter().map(|m| (*m).clone()).collect();
    classify_cluster(
        &owned,
        avg_vec_sim >= NEAR_DUP_AVG_VEC_SIM,
        avg_content_overlap >= NEAR_DUP_MIN_CONTENT_OVERLAP,
        avg_vec_sim >= TYPE_CONFUSED_AVG_VEC_SIM,
    )
}

fn mock_signal(id: &str, ty: &str, slug: Option<&str>, age_days: i64) -> UnitSignals {
    UnitSignals {
        id: id.into(),
        slug: slug.map(String::from),
        unit_type: ty.into(),
        age_days,
        marks: 0,
        content_preview: String::new(),
        body_length: 0,
        tag_count: 0,
        inbound_links: 0,
        has_part_of_or_related_out: false,
    }
}

/// Strong edges are those whose score reaches the split cutoff.
fn mock_edges(specs: &[(usize, usize, f64)], split_threshold: f64) -> Vec<Edge> {
    specs
        .iter()
        .map(|&(from, to, score)| Edge { from, to, strong: score >= split_threshold })
        .collect()
}

#[test]
fn slug_date_stamp_matches() {
    assert!(slug_has_date_stamp("lotus-failure-2026-05-01"));
    assert!(slug_has_date_stamp("foo-2026-05-01-suffix"));
    assert!(slug_has_date_stamp("-2024-01-01"));
}

#[test]
fn slug_date_stamp_rejects() {
    assert!(!slug_has_date_stamp("just-a-slug"));
    assert!(!slug_has_date_stamp("2026-05-01"));
    assert!(!slug_has_date_stamp("foo-26-05-01"));
    assert!(!slug_has_date_stamp(""));
    assert!(!slug_has_date_stamp("short"));
}

#[test]
fn union_find_components_basic() {
    let mut uf = UnionFind::new(5);
    uf.union(0, 1);
    uf.union(1, 2);
    uf.union(3, 4);
    assert_eq!(uf.find(0), uf.find(2));
    assert_eq!(uf.find(3), uf.find(4));
    assert_ne!(uf.find(0), uf.find(3));
}

#[test]
fn union_find_smaller_index_root() {
    let mut uf = UnionFind::new(3);
    uf.union(2, 0);
    assert_eq!(uf.find(2), 0);
    assert_eq!(uf.find(0), 0);
}

#[test]
fn suggested_action_priority() {
    let (a, _) = suggested_action_for(&vec!["near-dup".into(), "type-confused".into()]);
    assert!(a.contains("archive non-canonical"));
    let (a, _) = suggested_action_for(&vec!["temporal-log".into()]);
    assert!(a.contains("roll up"));
    let (a, _) = suggested_action_for(&vec!["orphan".into()]);
    assert!(a.contains("link or archive"));
    let (a, _) = suggested_action_for(&vec![]);
    assert_eq!(a, "skip");
}

#[test]
fn suggested_action_skips_unknown_labels() {
    let (a, r) = suggested_action_for(&vec!["mystery".into(), "related".into()]);
    assert_eq!(a, "link related_to (do NOT merge)");
    assert!(r.starts_with("related:"));
    let (a, r) = suggested_action_for(&vec!["mystery".into()]);
    assert_eq!(a, "skip");
    assert_eq!(r, "no dominant pattern");
}

#[test]
fn cluster_id_short() {
    let id = "019dbb6e-1887-7383-b2a8-de22b7a2eb56";
    assert_eq!(cluster_id_for(id), "019dbb6e");
    assert_eq!(cluster_id_for(id).len(), 8);
}

#[test]
fn classify_cluster_near_dup_fires_at_threshold() {
    let a = mock_signal("a", "fact", None, 1);
    let b = mock_signal("b", "fact", None, 1);
    let members = [&a, &b];
    let pats = classify(&members, 0.85, 0.30);
    assert!(pats.iter().any(|p| p == "near-dup"), "got {pats:?}");
    let pats = classify(&members, 0.84, 0.50);
    assert!(!pats.iter().any(|p| p == "near-dup"), "got {pats:?}");
    assert!(!pats.iter().any(|p| p == "related"), "got {pats:?}");
}

#[test]
fn classify_cluster_demotes_to_related_when_content_overlap_low() {
    let a = mock_signal("a", "lesson", None, 1);
    let b = mock_signal("b", "lesson", None, 1);
    let pats = classify(&[&a, &b], 0.97, 0.17);
    assert!(pats.iter().any(|p| p == "related"), "expected 'related', got {pats:?}");
    assert!(!pats.iter().any(|p| p == "near-dup"), "must NOT carry near-dup, got {pats:?}");

    let pats = classify(&[&a, &b], 0.97, NEAR_DUP_MIN_CONTENT_OVERLAP);
    assert!(pats.iter().any(|p| p == "near-dup"), "got {pats:?}");
    assert!(!pats.iter().any(|p| p == "related"), "got {pats:?}");
}

#[test]
fn classify_cluster_type_confused_requires_two_types() {
    let a = mock_signal("a", "fact", None, 1);
    let b = mock_signal("b", "fact", None, 1);
    let pats = classify(&[&a, &b], 0.80, 0.0);
    assert!(!pats.iter().any(|p| p == "type-confused"));

    let c = mock_signal("c", "idea", None, 1);
    let pats = classify(&[&a, &c], 0.80, 0.0);
    assert!(pats.iter().any(|p| p == "type-confused"), "got {pats:?}");

    let pats = classify(&[&a, &c], 0.70, 0.0);
    assert!(!pats.iter().any(|p| p == "type-confused"));
}

#[test]
fn classify_cluster_temporal_log_majority() {
    let a = mock_signal("a", "fact", Some("log-2026-05-01"), 1);
    let b = mock_signal("b", "fact", Some("log-2026-05-02"), 1);
    let c = mock_signal("c", "fact", Some("plain-slug"), 1);
    let pats = classify(&[&a, &b, &c], 0.0, 0.0);
    assert!(pats.iter().any(|p| p == "temporal-log"), "got {pats:?}");

    let pats = classify(&[&a, &c, &c], 0.0, 0.0);
    assert!(!pats.iter().any(|p| p == "temporal-log"));
}

#[test]
fn classify_cluster_temporal_log_exact_half() {
    let a = mock_signal("a", "fact", Some("log-2026-05-01"), 1);
    let c = mock_signal("c", "fact", None, 1);
    let pats = classify(&[&a, &c], 0.0, 0.0);
    assert_eq!(pats, vec!["temporal-log".to_string()]);
}

#[test]
fn split_oversized_drops_bridge_member() {
    let member_idxs: Vec<usize> = (0..=6).collect();
    let edges = mock_edges(
        &[
            (0, 1, 0.9),
            (1, 2, 0.85),
            (0, 2, 0.88),
            (3, 4, 0.9),
            (4, 5, 0.87),
            (3, 5, 0.86),
            (2, 3, 0.4),
            (0, 6, 0.35),
        ],
        0.6,
    );
    let roots = vec![0usize; 7];
    let res = split_oversized_cluster(&member_idxs, &edges, &roots, 0, 2);
    assert_eq!(res.sub_components.len(), 2, "expected 2 sub-components, got {:?}", res.sub_components);
    assert_eq!(res.dropped_count, 1, "expected 1 bleed member dropped");
    let mut covered: Vec<usize> =
        res.sub_components.iter().flat_map(|sub| sub.iter().copied()).collect();
    covered.sort();
    assert_eq!(covered, vec![0, 1, 2, 3, 4, 5]);
}

#[test]
fn split_oversized_below_min_cluster_size_counts_as_dropped() {
    let member_idxs: Vec<usize> = (0..=3).collect();
    let edges = mock_edges(&[(0, 1, 0.9), (2, 3, 0.9)], 0.5);
    let roots = vec![0usize; 4];
    let res = split_oversized_cluster(&member_idxs, &edges, &roots, 0, 3);
    assert!(res.sub_components.is_empty(), "no sub-component should survive min_cluster_size=3");
    assert_eq!(res.dropped_count, 4, "all 4 members should drop");
}

#[test]
fn split_oversized_no_high_edges_drops_all() {
    let member_idxs: Vec<usize> = (0..=3).collect();
    let edges = mock_edges(&[(0, 1, 0.3), (1, 2, 0.25), (2, 3, 0.2)], 0.5);
    let roots = vec![0usize; 4];
    let res = split_oversized_cluster(&member_idxs, &edges, &roots, 0, 2);
    assert!(res.sub_components.is_empty());
    assert_eq!(res.dropped_count, 4);
}

#[test]
fn split_oversized_ignores_edges_outside_component() {
    let member_idxs: Vec<usize> = vec![10, 11, 12, 13];
    let edges = mock_edges(&[(10, 11, 0.9), (12, 13, 0.9), (99, 100, 0.95)], 0.5);
    let roots: Vec<usize> = (0..=100).map(|i| if (10..=13).contains(&i) { 0 } else { 7 }).collect();
    let res = split_oversized_cluster(&member_idxs, &edges, &roots, 0, 2);
    assert_eq!(res.sub_components.len(), 2);
    assert_eq!(res.dropped_count, 0);
}

#[test]
fn split_accounts_for_every_member() {
    let member_idxs: Vec<usize> = (0..9).collect();
    let edges = mock_edges(&[(0, 1, 0.9), (1, 2, 0.9), (3, 4, 0.9), (5, 6, 0.2), (7, 8, 0.8)], 0.5);
    let roots = vec![0usize; 9];
    let res = split_oversized_cluster(&member_idxs, &edges, &roots, 0, 3);
    let kept: usize = res.sub_components.iter().map(|g| g.len()).sum();
    assert_eq!(res.sub_components, vec![vec![0, 1, 2]]);
    assert_eq!(kept + res.dropped_count, member_idxs.len());
}

#[test]
fn split_groups_hold_member_positions_in_root_order() {
    let member_idxs: Vec<usize> = vec![40, 41, 42, 43, 44];
    let edges = mock_edges(&[(44, 42, 0.9), (43, 41, 0.9), (42, 40, 0.1)], 0.5);
    let roots = vec![0usize; 45];
    let res = split_oversized_cluster(&member_idxs, &edges, &roots, 0, 2);
    assert_eq!(res.sub_components, vec![vec![1, 3], vec![2, 4]]);
    assert_eq!(res.dropped_count, 1);
}

#[test]
fn classify_singleton_low_signal_age_gate() {
    let mut m = mock_signal("a", "fact", None, 91);
    let pats = classify_singleton(&m);
    assert!(pats.iter().any(|p| p == "low-signal"));
    assert!(pats.iter().any(|p| p == "orphan"));

    m.age_days = 30;
    let pats = classify_singleton(&m);
    assert!(!pats.iter().any(|p| p == "low-signal"));
    assert!(pats.iter().any(|p| p == "orphan"));

    m.has_part_of_or_related_out = true;
    let pats = classify_singleton(&m);
    assert!(!pats.iter().any(|p| p == "orphan"));
}

#[test]
fn classify_singleton_age_gate_is_strict() {
    let m = mock_signal("a", "fact", None, 90);
    assert_eq!(classify_singleton(&m), vec!["orphan".to_string()]);
}

#[test]
fn connected_components_group_by_least_index() {
    let edges = vec![
        Edge { from: 4, to: 2, strong: false },
        Edge { from: 1, to: 3, strong: true },
        Edge { from: 3, to: 0, strong: false },
    ];
    let (roots, comp_roots, groups) = connected_components(6, &edges);
    assert_eq!(roots, vec![0, 0, 2, 0, 2, 5]);
    assert_eq!(comp_roots, vec![0, 2, 5]);
    assert_eq!(groups, vec![vec![0, 1, 3], vec![2, 4], vec![5]]);
}

#[test]
fn sort_members_by_slug_then_id() {
    let a = mock_signal("b-id", "fact", Some("zeta"), 1);
    let b = mock_signal("a-id", "fact", None, 1);
    let c = mock_signal("c-id", "fact", Some("alpha"), 1);
    let d = mock_signal("0-id", "fact", None, 1);
    let sorted = sort_members(vec![a, b, c, d]);
    let ids: Vec<&str> = sorted.iter().map(|m| m.id.as_str()).collect();
    assert_eq!(ids, vec!["0-id", "a-id", "c-id", "b-id"]);
}

#[test]
fn build_cluster_tallies_patterns_and_ids() {
    let a = mock_signal("019dbb6e-aaaa", "fact", Some("log-2026-05-01"), 1);
    let b = mock_signal("019dbb6f-bbbb", "idea", Some("log-2026-05-02"), 1);
    let mut by_pattern: Vec<(String, usize)> = Vec::new();
    let c = build_cluster(&vec![a.clone(), b.clone()], true, true, true, None, 2, &mut by_pattern)
        .expect("reported");
    assert_eq!(c.cluster_id, "019dbb6e");
    assert_eq!(c.patterns, vec!["near-dup", "temporal-log", "type-confused"]);
    assert_eq!(c.suggested_action, "archive non-canonical, supersedes-link canonical");
    assert_eq!(c.members.len(), 2);
    assert_eq!(c.members[1].id, "019dbb6f-bbbb");
    let c2 = build_cluster(&vec![a.clone(), b.clone()], false, false, false, None, 2, &mut by_pattern)
        .expect("reported");
    assert_eq!(c2.patterns, vec!["temporal-log"]);
    let mut tally = by_pattern.clone();
    tally.sort();
    assert_eq!(
        tally,
        vec![
            ("near-dup".to_string(), 1),
            ("temporal-log".to_string(), 2),
            ("type-confused".to_string(), 1)
        ]
    );
}

#[test]
fn build_cluster_split_without_pattern_is_shared_tag_bleed() {
    let a = mock_signal("a", "fact", None, 1);
    let b = mock_signal("b", "fact", None, 1);
    let mut by_pattern: Vec<(String, usize)> = Vec::new();
    let none = build_cluster(&vec![a.clone(), b.clone()], false, false, false, None, 2, &mut by_pattern);
    assert!(none.is_none());
    assert!(by_pattern.is_empty());
    let c = build_cluster(
        &vec![a, b],
        false,
        false,
        false,
        Some("parent00".to_string()),
        2,
        &mut by_pattern,
    )
    .expect("split clusters always report");
    assert_eq!(c.patterns, vec!["shared-tag-bleed"]);
    assert_eq!(c.suggested_action, "review sub-cluster (manual)");
    assert_eq!(c.split_from.as_deref(), Some("parent00"));
    assert_eq!(by_pattern, vec![("shared-tag-bleed".to_string(), 1)]);
}

#[test]
fn order_clusters_larger_first_then_id() {
    let mk = |id: &str, n: usize| {
        let ms: Vec<UnitSignals> = (0..n).map(|i| mock_signal(&format!("{id}{i}"), "fact", None, 1)).collect();
        let mut t = Vec::new();
        build_cluster(&ms, true, true, false, None, 1, &mut t).unwrap()
    };
    let ordered = order_clusters(vec![mk("b", 2), mk("c", 3), mk("a", 2)]);
    let ids: Vec<&str> = ordered.iter().map(|c| c.cluster_id.as_str()).collect();
    assert_eq!(ids, vec!["c0", "a0", "b0"]);
}

#[test]
fn dominant_pattern_follows_priority_not_label_order() {
    let (a, r) = suggested_action_for(&vec!["orphan".into(), "near-dup".into()]);
    assert_eq!(a, "archive non-canonical, supersedes-link canonical");
    assert!(r.starts_with("near-dup:"));
    let (a, _) = suggested_action_for(&vec!["low-signal".into(), "mystery".into(), "temporal-log".into()]);
    assert_eq!(a, "roll up into single log unit (manual)");
    let (a, _) = suggested_action_for(&vec!["shared-tag-bleed".into(), "orphan".into()]);
    assert_eq!(a, "link or archive (manual)");
}

#[test]
fn report_builds_one_cluster_per_reported_group_and_tallies_patterns() {
    let mut linked = mock_signal("cccc0000-x", "fact", None, 10);
    linked.has_part_of_or_related_out = true;
    let signals = vec![
        linked,
        mock_signal("bbbb0000-x", "fact", None, 200),
        mock_signal("dddd0000-x", "fact", None, 10),
        mock_signal("aaaa0000-x", "fact", None, 10),
    ];
    let group = |members: Vec<usize>, near: bool| ClusterGroup {
        members,
        vec_near_dup: near,
        overlap_near_dup: near,
        vec_type_confused: false,
        split_of: None,
    };
    // A recent linked unit (not reported), an old lone unit (low-signal and
    // orphan), and two near-duplicates.
    let groups = vec![group(vec![0], false), group(vec![1], false), group(vec![2, 3], true)];
    let (summary, clusters) = cluster_report(&signals, groups, 2);
    assert_eq!(summary.total_units, 4);
    assert_eq!(summary.cluster_count, 2);
    assert_eq!(clusters.len(), 2);
    assert_eq!(clusters[0].members.len(), 2);
    assert_eq!(clusters[0].patterns, vec!["near-dup".to_string()]);
    assert_eq!(clusters[0].suggested_action, "archive non-canonical, supersedes-link canonical");
    assert_eq!(clusters[1].patterns, vec!["low-signal".to_string(), "orphan".to_string()]);
    assert_eq!(clusters[1].suggested_action, "archive");
    assert_eq!(
        summary.by_pattern,
        vec![("low-signal".to_string(), 1), ("near-dup".to_string(), 1), ("orphan".to_string(), 1)]
    );
    // A sub-cluster of a split that matches nothing is shared-tag bleed, and
    // carries the id of its parent: the first of the parent's members by id.
    let carved = ClusterGroup {
        members: vec![0, 2],
        vec_near_dup: false,
        overlap_near_dup: false,
        vec_type_confused: false,
        split_of: Some(vec![0, 2, 3]),
    };
    let (summary, clusters) = cluster_report(&signals, vec![carved], 2);
    assert_eq!(summary.by_pattern, vec![("shared-tag-bleed".to_string(), 1)]);
    assert_eq!(clusters[0].split_from, Some("aaaa0000".to_string()));
    assert_eq!(clusters[0].cluster_id, "cccc0000");
    assert_eq!(clusters[0].suggested_action, "review sub-cluster (manual)");
}

#[test]
fn plan_splits_an_oversized_component_into_its_strong_parts() {
    let e = |from: usize, to: usize, strong: bool| Edge { from, to, strong };
    let edges = vec![e(0, 1, true), e(1, 2, false), e(2, 3, true), e(5, 4, true)];
    let plan = plan_clusters(7, &edges, 3, 2);
    let got: Vec<(Vec<usize>, Option<Vec<usize>>)> = plan.into_iter().map(|p| (p.members, p.split_of)).collect();
    assert_eq!(
        got,
        vec![
            (vec![0, 1], Some(vec![0, 1, 2, 3])),
            (vec![2, 3], Some(vec![0, 1, 2, 3])),
            (vec![4, 5], None),
            (vec![6], None),
        ]
    );
    // Splitting off (max 0), or a cap the component fits under: one group each.
    let plan = plan_clusters(7, &edges, 0, 2);
    assert_eq!(plan[0].members, vec![0, 1, 2, 3]);
    assert!(plan[0].split_of.is_none());
    assert_eq!(plan_clusters(7, &edges, 4, 2)[0].members, vec![0, 1, 2, 3]);
    // A split that leaves only one part keeps the whole component.
    let weak = vec![e(0, 1, true), e(1, 2, false), e(2, 3, false)];
    let plan = plan_clusters(4, &weak, 3, 2);
    assert_eq!(plan[0].members, vec![0, 1, 2, 3]);
    assert!(plan[0].split_of.is_none());
}
