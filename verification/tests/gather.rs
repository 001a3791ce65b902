use simaris::gather::{expansion_ids, merge_query_matches};

fn ids(v: &[&str]) -> Vec<String> {
    v.iter().map(|s| s.to_string()).collect()
}

#[test]
fn merged_hits_are_distinct_in_first_seen_order_and_capped() {
    let results = vec![ids(&["a", "b", "a"]), ids(&[]), ids(&["c", "b", "d"])];
    let (direct, counts) = merge_query_matches(&results, 3);
    assert_eq!(direct, ids(&["a", "b", "c"]));
    // Counts are taken before the cut: the third query found c and d anew.
    assert_eq!(counts, vec![2, 0, 2]);
    let (all, _) = merge_query_matches(&results, 15);
    assert_eq!(all, ids(&["a", "b", "c", "d"]));
    let (none, counts) = merge_query_matches(&vec![], 5);
    assert!(none.is_empty() && counts.is_empty());
}

#[test]
fn expansion_skips_direct_hits_and_repeats() {
    let direct = ids(&["a", "b"]);
    let neighbours = vec![ids(&["b", "x", "y"]), ids(&["y", "a", "z"])];
    assert_eq!(expansion_ids(&direct, &neighbours), ids(&["x", "y", "z"]));
    assert!(expansion_ids(&direct, &vec![ids(&[]), ids(&["a"])]).is_empty());
}
