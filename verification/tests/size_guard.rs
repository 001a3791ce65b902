use simaris::size_guard::{
    check_size, parse_usize, threshold_from, SizeVerdict, DEFAULT_HARD_BYTES, DEFAULT_WARN_BYTES,
};

fn check(body: &str, tags: &[&str], flow: bool, force: bool) -> SizeVerdict {
    let tags: Vec<String> = tags.iter().map(|t| t.to_string()).collect();
    check_size(body, &tags, flow, force, DEFAULT_WARN_BYTES, DEFAULT_HARD_BYTES)
}

#[test]
fn empty_below_warn() {
    assert_eq!(check("", &[], false, false), SizeVerdict::Pass);
}

#[test]
fn small_below_warn() {
    assert_eq!(check("short body", &[], false, false), SizeVerdict::Pass);
}

#[test]
fn flow_tag_bypasses_hard_reject() {
    let body = "x".repeat(DEFAULT_HARD_BYTES + 500);
    assert_eq!(check(&body, &["flow"], false, false), SizeVerdict::Pass);
}

#[test]
fn flow_flag_bypasses_hard_reject() {
    let body = "x".repeat(DEFAULT_HARD_BYTES + 500);
    assert_eq!(check(&body, &[], true, false), SizeVerdict::Pass);
}

#[test]
fn force_overrides_hard_reject() {
    let body = "x".repeat(DEFAULT_HARD_BYTES + 500);
    assert_eq!(
        check(&body, &[], false, true),
        SizeVerdict::Forced { bytes: DEFAULT_HARD_BYTES + 500, hard: DEFAULT_HARD_BYTES }
    );
}

#[test]
fn hard_reject_bails_without_force() {
    let body = "x".repeat(DEFAULT_HARD_BYTES + 500);
    assert_eq!(
        check(&body, &[], false, false),
        SizeVerdict::Reject { bytes: DEFAULT_HARD_BYTES + 500, hard: DEFAULT_HARD_BYTES }
    );
}

#[test]
fn warn_band_counts_bytes() {
    // 1000 two-byte characters: 2000 chars' worth of bytes is over the warn line.
    let body = "é".repeat(1100);
    assert_eq!(
        check(&body, &[], false, false),
        SizeVerdict::Warn { bytes: 2200, warn: DEFAULT_WARN_BYTES }
    );
    assert_eq!(check(&"x".repeat(DEFAULT_WARN_BYTES), &[], false, false), SizeVerdict::Pass);
}

#[test]
fn thresholds_from_env_values() {
    assert_eq!(threshold_from(None, 2048), 2048);
    assert_eq!(threshold_from(Some("4096"), 2048), 4096);
    assert_eq!(threshold_from(Some("+12"), 2048), 12);
    assert_eq!(threshold_from(Some("-1"), 2048), 2048);
    assert_eq!(threshold_from(Some("lots"), 2048), 2048);
    assert_eq!(threshold_from(Some(""), 2048), 2048);
}

#[test]
fn parse_usize_matches_std() {
    for s in ["0", "007", "+5", "18446744073709551615", "18446744073709551616", "1 ", "", "+", "++1"] {
        assert_eq!(parse_usize(s), s.parse::<usize>().ok(), "input {s:?}");
    }
}
