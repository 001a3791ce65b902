use simaris::divergence::{divergence_findings, parent_spans, MeasuredSpan, ParentRow, ParentSpan};
use simaris::model::UnitCore;

fn row(child: &str, parent: &str, updated: &str) -> ParentRow {
    ParentRow { child: child.into(), parent: parent.into(), updated: updated.into() }
}

fn unit(id: &str, content: &str, ty: &str) -> UnitCore {
    UnitCore { id: id.into(), content: content.into(), unit_type: ty.into(), tags: vec![] }
}

fn measured(child: &str, over: bool, gap: i64) -> MeasuredSpan {
    MeasuredSpan {
        span: ParentSpan {
            child: child.into(),
            parent_a: format!("{child}-a"),
            parent_a_updated: "2024-01-01 00:00:00".into(),
            parent_b: format!("{child}-b"),
            parent_b_updated: "2024-03-01 00:00:00".into(),
        },
        over_threshold: over,
        gap_days: gap,
        gap_text: gap.to_string(),
    }
}

#[test]
fn spans_take_oldest_and_newest_parent_per_child() {
    let rows = vec![
        row("c1", "p1", "2024-01-01 00:00:00"),
        row("c1", "p2", "2024-02-01 00:00:00"),
        row("c1", "p3", "2024-03-01 00:00:00"),
        row("c2", "p9", "2024-01-01 00:00:00"),
        row("c3", "p4", "2024-01-05 00:00:00"),
        row("c3", "p5", "2024-01-06 00:00:00"),
    ];
    let spans = parent_spans(&rows);
    assert_eq!(spans.len(), 2);
    assert_eq!(spans[0].child, "c1");
    assert_eq!(spans[0].parent_a, "p1");
    assert_eq!(spans[0].parent_b, "p3");
    assert_eq!(spans[0].parent_b_updated, "2024-03-01 00:00:00");
    assert_eq!(spans[1].child, "c3");
    assert_eq!(spans[1].parent_a, "p4");
    assert_eq!(spans[1].parent_b, "p5");
}

#[test]
fn spans_empty_without_second_parent() {
    assert!(parent_spans(&vec![]).is_empty());
    assert!(parent_spans(&vec![row("c", "p", "2024-01-01 00:00:00")]).is_empty());
}

#[test]
fn findings_keep_wide_gaps_of_live_children_ranked() {
    let units = vec![
        unit("b", "Beta child\nbody", "fact"),
        unit("a", "Alpha child", "procedure"),
        unit("c", "Gamma", "fact"),
    ];
    let ms = vec![
        measured("b", true, 40),
        measured("a", true, 40),
        measured("c", true, 90),
        measured("gone", true, 100),
        measured("near", false, 3),
    ];
    let out = divergence_findings(&units, &ms);
    let ids: Vec<&str> = out.iter().map(|f| f.id.as_str()).collect();
    assert_eq!(ids, vec!["c", "a", "b"]);
    assert_eq!(out[0].gap_days, 90);
    assert_eq!(out[0].reason, "parents differ by 90 days (>14)");
    assert_eq!(out[1].headline, "Alpha child");
    assert_eq!(out[1].unit_type, "procedure");
    assert_eq!(out[2].parent_a_id, "b-a");
    assert_eq!(out[2].parent_b_id, "b-b");
}
