use simaris::digest::{overview_links, DigestUnit};

fn du(overview: bool) -> DigestUnit {
    DigestUnit {
        unit_type: "fact".to_string(),
        content: "c".to_string(),
        tags: vec![],
        is_overview: overview,
    }
}

#[test]
fn overview_links_point_every_other_unit_at_the_overview() {
    let units = vec![du(false), du(true), du(false)];
    assert_eq!(overview_links(&units), vec![(0, 1), (2, 1)]);
}

#[test]
fn overview_links_use_the_last_overview() {
    let units = vec![du(true), du(false), du(true)];
    assert_eq!(overview_links(&units), vec![(1, 2)]);
}

#[test]
fn no_overview_no_links() {
    assert!(overview_links(&vec![du(false), du(false)]).is_empty());
}
