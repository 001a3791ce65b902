use simaris::migration::{new_unit_ids, remap_links, remap_refs};

fn hyphenated(s: &str) -> bool {
    s.len() == 36
        && s.chars().enumerate().all(|(i, c)| {
            if [8, 13, 18, 23].contains(&i) {
                c == '-'
            } else {
                c.is_ascii_hexdigit()
            }
        })
}

#[test]
fn fresh_ids_are_hyphenated_uuids() {
    let ids = new_unit_ids(3);
    assert_eq!(ids.len(), 3);
    assert!(ids.iter().all(|s| hyphenated(s)));
    assert!(ids[0] < ids[1] && ids[1] < ids[2]);
    assert!(ids.iter().all(|s| ["8", "9", "a", "b"].contains(&&s[19..20])));
    assert_eq!(&ids[0][14..15], "7");
    assert!(new_unit_ids(0).is_empty());
}

#[test]
fn links_keep_new_endpoints_or_drop_orphans() {
    let old = vec![1, 2, 5];
    let new: Vec<String> = vec!["u-one".into(), "u-two".into(), "u-five".into()];
    let links = vec![(1, 2), (5, 1), (2, 9), (7, 7)];
    let r = remap_links(&old, &new, &links);
    assert_eq!(r[0], Some(("u-one".to_string(), "u-two".to_string())));
    assert_eq!(r[1], Some(("u-five".to_string(), "u-one".to_string())));
    assert_eq!(r[2], None);
    assert_eq!(r[3], None);
}

#[test]
fn marks_follow_their_unit_or_drop() {
    let old = vec![3, 4];
    let new: Vec<String> = vec!["a".into(), "b".into()];
    assert_eq!(remap_refs(&old, &new, &vec![4, 3, 8]), vec![Some("b".to_string()), Some("a".to_string()), None]);
}
