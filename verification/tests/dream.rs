use simaris::dream::{activity_timestamp, archive_decisions, DecayCandidate};

fn cand(id: &str, content: &str, below: bool, children: bool, slug: bool) -> DecayCandidate {
    DecayCandidate {
        id: id.to_string(),
        content: content.to_string(),
        below_threshold: below,
        has_children: children,
        has_slug: slug,
    }
}

#[test]
fn pinned_units_with_slugs_are_not_archived() {
    // Both fell below the threshold; u1 is pinned by a slug.
    let cands = vec![
        cand("u1", "pinned old", true, false, true),
        cand("u2", "old unpinned", true, false, false),
    ];
    let (ids, sample) = archive_decisions(&cands);
    assert_eq!(ids.len(), 1, "only u2 should archive");
    assert!(!ids.contains(&"u1".to_string()), "u1 (pinned) must remain live");
    assert!(ids.contains(&"u2".to_string()), "u2 (unpinned) must archive");
    assert_eq!(sample.len(), 1);
    assert_eq!(sample[0].headline, "old unpinned");
}

#[test]
fn part_of_parents_are_not_archived() {
    let cands = vec![
        cand("u_parent", "parent old", true, true, false),
        cand("u_child", "child fresh", false, false, false),
    ];
    let (ids, _) = archive_decisions(&cands);
    assert_eq!(ids.len(), 0, "parent must not archive");
}

#[test]
fn recent_marks_freeze_decay() {
    // Updated 720 days ago, marked a day ago: decay is measured from the mark,
    // and the unit, still near full confidence, is not archived.
    let activity = activity_timestamp("2026-05-08 12:00:00", "2024-05-19 12:00:00");
    assert_eq!(activity, "2026-05-08 12:00:00");
    let (ids, _) = archive_decisions(&vec![cand("u1", "marked recently", false, false, false)]);
    assert_eq!(ids.len(), 0, "high confidence not archive-eligible");
}
