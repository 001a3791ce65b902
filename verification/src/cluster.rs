//! Redundancy survey over the store: pattern detection for clusters of
//! similar units and for lone units, the suggested follow-up action, and
//! the split of oversized clusters along strong edges.
//!
//! Similarity scores are floating point and stay with the caller; the
//! functions here receive the outcome of each threshold comparison as a
//! flag (for example "the average vector similarity reached the near-dup
//! cutoff").
use vstd::prelude::*;
use crate::text;
use crate::text::{chars_of, lex_lt_exec, str_eq, string_of, take_chars_exec};
use crate::partition;
use crate::partition::{group_by_root, UnionFind};

verus! {

broadcast use vstd::string::group_string_axioms;

/// Minimum age, in days, for a lone unit without marks or inbound links
/// to count as low-signal.
pub const LOW_SIGNAL_MIN_AGE_DAYS: i64 = 90;

/// Default size cap before the split post-pass activates (`0` disables).
pub const DEFAULT_MAX_CLUSTER_SIZE: usize = 10;

/// Per-unit signals that the pattern detectors read.
#[derive(Debug, Clone)]
pub struct UnitSignals {
    pub id: String,
    pub slug: Option<String>,
    pub unit_type: String,
    pub age_days: i64,
    pub marks: i64,
    pub content_preview: String,
    pub body_length: usize,
    pub tag_count: usize,
    pub inbound_links: usize,
    pub has_part_of_or_related_out: bool,
}

/// One member of a reported cluster.
#[derive(Debug, Clone)]
pub struct ClusterMember {
    pub id: String,
    pub slug: Option<String>,
    pub unit_type: String,
    pub age_days: i64,
    pub marks: i64,
    pub content_preview: String,
    pub body_length: usize,
    pub tag_count: usize,
}

/// Summary block of a survey: how many units were looked at, how many
/// clusters were reported, and how often each pattern fired (in ascending
/// order of pattern name).
#[derive(Debug, Clone)]
pub struct ClusterSummary {
    pub total_units: usize,
    pub cluster_count: usize,
    pub by_pattern: Vec<(String, usize)>,
}

// ---------------------------------------------------------------------------
// Dated slugs
// ---------------------------------------------------------------------------

pub open spec fn is_digit(c: char) -> bool {
    '0' <= c && c <= '9'
}

/// `-YYYY-MM-DD` starts at position `i` of `s`.
pub open spec fn date_at(s: Seq<char>, i: int) -> bool {
    &&& 0 <= i
    &&& i + 11 <= s.len()
    &&& s[i] == '-'
    &&& is_digit(s[i + 1]) && is_digit(s[i + 2]) && is_digit(s[i + 3]) && is_digit(s[i + 4])
    &&& s[i + 5] == '-'
    &&& is_digit(s[i + 6]) && is_digit(s[i + 7])
    &&& s[i + 8] == '-'
    &&& is_digit(s[i + 9]) && is_digit(s[i + 10])
}

/// The slug holds `-YYYY-MM-DD` somewhere. All the characters of the
/// pattern are ASCII, so looking for it among the characters is the same
/// as looking for it among the bytes.
pub open spec fn slug_dated(s: Seq<char>) -> bool {
    exists|i: int| #[trigger] date_at(s, i)
}

fn is_digit_exec(c: char) -> (b: bool)
    ensures
        b == is_digit(c),
{
    '0' <= c && c <= '9'
}

fn date_at_exec(v: &Vec<char>, i: usize) -> (r: bool)
    requires
        i + 11 <= v.len(),
    ensures
        r == date_at(v@, i as int),
{
    v[i] == '-' && is_digit_exec(v[i + 1]) && is_digit_exec(v[i + 2]) && is_digit_exec(v[i + 3])
        && is_digit_exec(v[i + 4]) && v[i + 5] == '-' && is_digit_exec(v[i + 6]) && is_digit_exec(
        v[i + 7],
    ) && v[i + 8] == '-' && is_digit_exec(v[i + 9]) && is_digit_exec(v[i + 10])
}

/// Whether a slug carries a `-YYYY-MM-DD` date stamp at any position.
pub fn slug_has_date_stamp(slug: &str) -> (r: bool)
    ensures
        r == slug_dated(slug@),
{
    let v = chars_of(slug);
    if v.len() < 11 {
        proof {
            assert forall|k: int| !#[trigger] date_at(v@, k) by {}
        }
        return false;
    }
    let last = v.len() - 11;
    let mut i: usize = 0;
    let mut found = false;
    while i <= last && !found
        invariant
            v@ == slug@,
            last + 11 == v.len(),
            i <= last + 1,
            found ==> slug_dated(v@),
            !found ==> forall|k: int| 0 <= k < i ==> !#[trigger] date_at(v@, k),
        decreases last + 1 - i, if found { 0int } else { 1int },
    {
        if date_at_exec(&v, i) {
            found = true;
        } else {
            i = i + 1;
        }
    }
    proof {
        if !found {
            assert forall|k: int| !#[trigger] date_at(v@, k) by {
                if k >= i {
                    assert(k + 11 > v@.len());
                }
            }
        }
    }
    found
}

// ---------------------------------------------------------------------------
// Pattern labels and actions
// ---------------------------------------------------------------------------

pub open spec fn near_dup() -> Seq<char> {
    "near-dup"@
}

pub open spec fn related() -> Seq<char> {
    "related"@
}

pub open spec fn temporal_log() -> Seq<char> {
    "temporal-log"@
}

pub open spec fn type_confused() -> Seq<char> {
    "type-confused"@
}

pub open spec fn low_signal() -> Seq<char> {
    "low-signal"@
}

pub open spec fn orphan() -> Seq<char> {
    "orphan"@
}

pub open spec fn shared_tag_bleed() -> Seq<char> {
    "shared-tag-bleed"@
}

pub open spec fn string_views(v: Seq<String>) -> Seq<Seq<char>> {
    v.map_values(|s: String| s@)
}

/// Patterns of a lone unit: low-signal (no marks, no inbound links, older
/// than the age gate), then orphan (no outbound `part_of` / `related_to`).
pub open spec fn singleton_patterns(m: UnitSignals) -> Seq<Seq<char>> {
    let a: Seq<Seq<char>> = if m.marks == 0 && m.inbound_links == 0 && m.age_days
        > LOW_SIGNAL_MIN_AGE_DAYS {
        seq![low_signal()]
    } else {
        Seq::empty()
    };
    if !m.has_part_of_or_related_out {
        a.push(orphan())
    } else {
        a
    }
}

/// A lone unit is labelled low-signal exactly when it has no marks, no
/// inbound links and is older than 90 days, and orphan exactly when it has
/// no outbound `part_of` / `related_to` link; it carries no other label.
pub proof fn law_lone_unit_labels(m: UnitSignals)
    ensures
        singleton_patterns(m).contains("low-signal"@) <==> (m.marks == 0 && m.inbound_links == 0 && m.age_days > 90),
        singleton_patterns(m).contains("orphan"@) <==> !m.has_part_of_or_related_out,
        forall|i: int| 0 <= i < singleton_patterns(m).len() ==> #[trigger] singleton_patterns(m)[i] == "low-signal"@
            || singleton_patterns(m)[i] == "orphan"@,
{
    reveal_strlit("low-signal");
    reveal_strlit("orphan");
    assert("low-signal"@[0] != "orphan"@[0]);
    let s = singleton_patterns(m);
    let quiet = m.marks == 0 && m.inbound_links == 0 && m.age_days > 90;
    assert(low_signal() =~= "low-signal"@);
    assert(orphan() =~= "orphan"@);
    if quiet && !m.has_part_of_or_related_out {
        assert(s =~= seq!["low-signal"@, "orphan"@]);
        assert(s[0] == "low-signal"@);
        assert(s[1] == "orphan"@);
    } else if quiet {
        assert(s =~= seq!["low-signal"@]);
        assert(s[0] == "low-signal"@);
    } else if !m.has_part_of_or_related_out {
        assert(s =~= seq!["orphan"@]);
        assert(s[0] == "orphan"@);
    } else {
        assert(s =~= Seq::<Seq<char>>::empty());
    }
}

/// Pattern labels of a lone unit; empty when the unit should not be
/// reported.
pub fn classify_singleton(m: &UnitSignals) -> (r: Vec<String>)
    ensures
        string_views(r@) == singleton_patterns(*m),
{
    let mut out: Vec<String> = Vec::new();
    if m.marks == 0 && m.inbound_links == 0 && m.age_days > LOW_SIGNAL_MIN_AGE_DAYS {
        out.push("low-signal".to_owned());
    }
    if !m.has_part_of_or_related_out {
        out.push("orphan".to_owned());
    }
    proof {
        assert(string_views(out@) =~= singleton_patterns(*m));
    }
    out
}

/// Number of members among the first `k` whose slug is dated.
pub open spec fn dated_count(ms: Seq<UnitSignals>, k: int) -> nat
    decreases k,
{
    if k <= 0 {
        0
    } else {
        dated_count(ms, k - 1) + if ms[k - 1].slug matches Some(s) && slug_dated(s@) {
            1nat
        } else {
            0nat
        }
    }
}

/// At least two distinct unit types among the members.
pub open spec fn mixed_types(ms: Seq<UnitSignals>) -> bool {
    exists|i: int| 0 <= i < ms.len() && #[trigger] ms[i].unit_type@ != ms[0].unit_type@
}

/// Patterns of a multi-member cluster, in priority order:
/// near-dup (vector similarity and content overlap both at their cutoffs)
/// or related (vector similarity only), then temporal-log (at least half
/// the members carry a dated slug), then type-confused (two or more types
/// and vector similarity at the type-confusion cutoff).
pub open spec fn cluster_patterns(
    ms: Seq<UnitSignals>,
    vec_near_dup: bool,
    overlap_near_dup: bool,
    vec_type_confused: bool,
) -> Seq<Seq<char>> {
    let a: Seq<Seq<char>> = if vec_near_dup {
        if overlap_near_dup {
            seq![near_dup()]
        } else {
            seq![related()]
        }
    } else {
        Seq::empty()
    };
    let b = if ms.len() > 0 && 2 * dated_count(ms, ms.len() as int) >= ms.len() {
        a.push(temporal_log())
    } else {
        a
    };
    if mixed_types(ms) && vec_type_confused {
        b.push(type_confused())
    } else {
        b
    }
}

proof fn lemma_push_has(s: Seq<Seq<char>>, x: Seq<char>, y: Seq<char>)
    ensures
        s.push(x).contains(y) <==> (s.contains(y) || x == y),
{
    let t = s.push(x);
    if t.contains(y) {
        let k = choose|k: int| 0 <= k < t.len() && t[k] == y;
        if k < s.len() {
            assert(s[k] == y);
        }
    }
    if s.contains(y) {
        let k = choose|k: int| 0 <= k < s.len() && s[k] == y;
        assert(t[k] == y);
    }
    if x == y {
        assert(t[s.len() as int] == y);
    }
}

/// The labels of a multi-member cluster: near-dup exactly when both the
/// vector similarity and the content overlap reach their cutoffs, related
/// exactly when only the vector similarity does, temporal-log exactly when
/// at least half of the members carry a dated slug, and type-confused
/// exactly when the members have two or more types and the vector
/// similarity reaches the type-confusion cutoff.
pub proof fn law_cluster_labels(ms: Seq<UnitSignals>, vnd: bool, ond: bool, vtc: bool)
    ensures
        cluster_patterns(ms, vnd, ond, vtc).contains("near-dup"@) <==> (vnd && ond),
        cluster_patterns(ms, vnd, ond, vtc).contains("related"@) <==> (vnd && !ond),
        cluster_patterns(ms, vnd, ond, vtc).contains("temporal-log"@) <==> (ms.len() > 0 && 2 * dated_count(
            ms,
            ms.len() as int,
        ) >= ms.len()),
        cluster_patterns(ms, vnd, ond, vtc).contains("type-confused"@) <==> (vtc && exists|i: int|
            0 <= i < ms.len() && #[trigger] ms[i].unit_type@ != ms[0].unit_type@),
{
    reveal_strlit("near-dup");
    reveal_strlit("related");
    reveal_strlit("temporal-log");
    reveal_strlit("type-confused");
    let n0 = "near-dup"@;
    let n1 = "related"@;
    let n2 = "temporal-log"@;
    let n3 = "type-confused"@;
    assert(n0.len() == 8 && n1.len() == 7 && n2.len() == 12 && n3.len() == 13);
    assert(near_dup() == n0 && related() == n1 && temporal_log() == n2 && type_confused() == n3);
    let e = Seq::<Seq<char>>::empty();
    let a: Seq<Seq<char>> = if vnd {
        if ond {
            e.push(n0)
        } else {
            e.push(n1)
        }
    } else {
        e
    };
    assert(seq![n0] =~= e.push(n0));
    assert(seq![n1] =~= e.push(n1));
    let tl = ms.len() > 0 && 2 * dated_count(ms, ms.len() as int) >= ms.len();
    let b = if tl { a.push(n2) } else { a };
    let r = if mixed_types(ms) && vtc { b.push(n3) } else { b };
    assert(r =~= cluster_patterns(ms, vnd, ond, vtc));
    assert forall|y: Seq<char>| y == n0 || y == n1 || y == n2 || y == n3 implies (#[trigger] r.contains(y) <==> (
        (y == n0 && vnd && ond) || (y == n1 && vnd && !ond) || (y == n2 && tl) || (y == n3 && mixed_types(ms)
            && vtc))) by {
        lemma_push_has(e, n0, y);
        lemma_push_has(e, n1, y);
        lemma_push_has(a, n2, y);
        lemma_push_has(b, n3, y);
    }
    assert(r.contains(n0) <==> (vnd && ond));
    assert(r.contains(n1) <==> (vnd && !ond));
    assert(r.contains(n2) <==> tl);
    assert(r.contains(n3) <==> (mixed_types(ms) && vtc));
}

/// Pattern labels of a multi-member cluster. The three flags carry the
/// outcome of the caller's comparisons of the average edge similarities
/// with the near-dup cutoffs and with the type-confusion cutoff.
pub fn classify_cluster(
    members: &Vec<UnitSignals>,
    vec_near_dup: bool,
    overlap_near_dup: bool,
    vec_type_confused: bool,
) -> (r: Vec<String>)
    requires
        members@.len() <= usize::MAX / 2,
    ensures
        string_views(r@) == cluster_patterns(
            members@,
            vec_near_dup,
            overlap_near_dup,
            vec_type_confused,
        ),
{
    let mut out: Vec<String> = Vec::new();
    if vec_near_dup {
        if overlap_near_dup {
            out.push("near-dup".to_owned());
        } else {
            out.push("related".to_owned());
        }
    }
    let n = members.len();
    let mut dated: usize = 0;
    let mut i: usize = 0;
    while i < n
        invariant
            n == members@.len(),
            i <= n,
            dated == dated_count(members@, i as int),
            dated <= i,
        decreases n - i,
    {
        let d = match &members[i].slug {
            Some(s) => slug_has_date_stamp(s.as_str()),
            None => false,
        };
        if d {
            dated = dated + 1;
        }
        i = i + 1;
    }
    if n > 0 && 2 * dated >= n {
        out.push("temporal-log".to_owned());
    }
    let mut mixed = false;
    if n > 0 {
        let mut k: usize = 1;
        while k < n && !mixed
            invariant
                n == members@.len(),
                0 < n,
                1 <= k <= n,
                mixed ==> mixed_types(members@),
                !mixed ==> forall|j: int|
                    0 <= j < k ==> #[trigger] members@[j].unit_type@ == members@[0].unit_type@,
            decreases n - k + (if mixed { 0int } else { 1int }),
        {
            if !str_eq(members[k].unit_type.as_str(), members[0].unit_type.as_str()) {
                mixed = true;
                assert(members@[k as int].unit_type@ != members@[0].unit_type@);
            } else {
                k = k + 1;
            }
        }
    }
    if mixed && vec_type_confused {
        out.push("type-confused".to_owned());
    }
    proof {
        assert(string_views(out@) =~= cluster_patterns(
            members@,
            vec_near_dup,
            overlap_near_dup,
            vec_type_confused,
        ));
    }
    out
}

/// The action and rationale for one pattern label, if it is a known one.
pub open spec fn action_of(p: Seq<char>) -> Option<(Seq<char>, Seq<char>)> {
    if p == near_dup() {
        Some(
            (
                "archive non-canonical, supersedes-link canonical"@,
                "near-dup: avg vec_sim ≥ 0.85 AND avg content_overlap ≥ 0.30"@,
            ),
        )
    } else if p == related() {
        Some(
            (
                "link related_to (do NOT merge)"@,
                "related: avg vec_sim ≥ 0.85 but avg content_overlap < 0.30 — distinct content under shared vocabulary"@,
            ),
        )
    } else if p == temporal_log() {
        Some(
            (
                "roll up into single log unit (manual)"@,
                "temporal-log: ≥50% of members carry -YYYY-MM-DD slug"@,
            ),
        )
    } else if p == type_confused() {
        Some(("retype (manual)"@, "type-confused: ≥2 types and avg vec_sim ≥ 0.75"@))
    } else if p == low_signal() {
        Some(("archive"@, "low-signal: 0 marks, no inbound links, age > 90d"@))
    } else if p == orphan() {
        Some(("link or archive (manual)"@, "orphan: no outbound part_of / related_to edges"@))
    } else if p == shared_tag_bleed() {
        Some(
            (
                "review sub-cluster (manual)"@,
                "shared-tag-bleed: surfaced by split post-pass; no other pattern fired"@,
            ),
        )
    } else {
        None
    }
}

/// Priority of a pattern label when picking the dominant one: near-dup,
/// related, temporal-log, type-confused, low-signal, orphan, then
/// shared-tag-bleed (which only fires when no other pattern did); 7 for a
/// label that names no pattern.
pub open spec fn pattern_rank(p: Seq<char>) -> int {
    if p == near_dup() {
        0
    } else if p == related() {
        1
    } else if p == temporal_log() {
        2
    } else if p == type_confused() {
        3
    } else if p == low_signal() {
        4
    } else if p == orphan() {
        5
    } else if p == shared_tag_bleed() {
        6
    } else {
        7
    }
}

/// The label of each rank.
pub open spec fn rank_label(r: int) -> Seq<char> {
    if r == 0 {
        near_dup()
    } else if r == 1 {
        related()
    } else if r == 2 {
        temporal_log()
    } else if r == 3 {
        type_confused()
    } else if r == 4 {
        low_signal()
    } else if r == 5 {
        orphan()
    } else {
        shared_tag_bleed()
    }
}

/// The best (lowest) rank among the first `k` labels; 7 when none of them
/// names a pattern.
pub open spec fn best_rank(ps: Seq<Seq<char>>, k: int) -> int
    decreases k,
{
    if k <= 0 {
        7
    } else {
        let b = best_rank(ps, k - 1);
        let r = pattern_rank(ps[k - 1]);
        if r < b {
            r
        } else {
            b
        }
    }
}

/// The dominant pattern does not depend on the order of the labels: the
/// chosen rank is at most the rank of every label, and, when some label is
/// known, it is the rank of one of them.
pub proof fn law_dominant_rank_is_least(ps: Seq<Seq<char>>, k: int)
    requires
        0 <= k <= ps.len(),
    ensures
        forall|j: int| 0 <= j < k ==> best_rank(ps, k) <= #[trigger] pattern_rank(ps[j]),
        best_rank(ps, k) < 7 ==> exists|j: int| 0 <= j < k && #[trigger] pattern_rank(ps[j]) == best_rank(ps, k),
        best_rank(ps, k) <= 7,
    decreases k,
{
    if k > 0 {
        law_dominant_rank_is_least(ps, k - 1);
        if best_rank(ps, k) < 7 && best_rank(ps, k) == best_rank(ps, k - 1) {
            let j = choose|j: int| 0 <= j < k - 1 && #[trigger] pattern_rank(ps[j]) == best_rank(ps, k - 1);
            assert(pattern_rank(ps[j]) == best_rank(ps, k));
        }
        if best_rank(ps, k) != best_rank(ps, k - 1) {
            assert(pattern_rank(ps[k - 1]) == best_rank(ps, k));
        }
    }
}

/// The action of the dominant pattern among the labels (the known label of
/// best priority, wherever it stands), or "skip" when none is known.
pub open spec fn dominant_action(ps: Seq<Seq<char>>) -> (Seq<char>, Seq<char>) {
    let b = best_rank(ps, ps.len() as int);
    if b < 7 {
        action_of(rank_label(b)).unwrap()
    } else {
        ("skip"@, "no dominant pattern"@)
    }
}

fn rank_exec(p: &str) -> (r: u8)
    ensures
        r as int == pattern_rank(p@),
{
    if str_eq(p, "near-dup") {
        0
    } else if str_eq(p, "related") {
        1
    } else if str_eq(p, "temporal-log") {
        2
    } else if str_eq(p, "type-confused") {
        3
    } else if str_eq(p, "low-signal") {
        4
    } else if str_eq(p, "orphan") {
        5
    } else if str_eq(p, "shared-tag-bleed") {
        6
    } else {
        7
    }
}

fn rank_label_exec(r: u8) -> (l: &'static str)
    requires
        r < 7,
    ensures
        l@ == rank_label(r as int),
{
    if r == 0 {
        "near-dup"
    } else if r == 1 {
        "related"
    } else if r == 2 {
        "temporal-log"
    } else if r == 3 {
        "type-confused"
    } else if r == 4 {
        "low-signal"
    } else if r == 5 {
        "orphan"
    } else {
        "shared-tag-bleed"
    }
}

fn action_exec(p: &str) -> (r: Option<(String, String)>)
    ensures
        match r {
            Some(a) => action_of(p@) == Some((a.0@, a.1@)),
            None => action_of(p@) is None,
        },
{
    if str_eq(p, "near-dup") {
        Some(
            (
                "archive non-canonical, supersedes-link canonical".to_owned(),
                "near-dup: avg vec_sim ≥ 0.85 AND avg content_overlap ≥ 0.30".to_owned(),
            ),
        )
    } else if str_eq(p, "related") {
        Some(
            (
                "link related_to (do NOT merge)".to_owned(),
                "related: avg vec_sim ≥ 0.85 but avg content_overlap < 0.30 — distinct content under shared vocabulary".to_owned(),
            ),
        )
    } else if str_eq(p, "temporal-log") {
        Some(
            (
                "roll up into single log unit (manual)".to_owned(),
                "temporal-log: ≥50% of members carry -YYYY-MM-DD slug".to_owned(),
            ),
        )
    } else if str_eq(p, "type-confused") {
        Some(
            (
                "retype (manual)".to_owned(),
                "type-confused: ≥2 types and avg vec_sim ≥ 0.75".to_owned(),
            ),
        )
    } else if str_eq(p, "low-signal") {
        Some(
            (
                "archive".to_owned(),
                "low-signal: 0 marks, no inbound links, age > 90d".to_owned(),
            ),
        )
    } else if str_eq(p, "orphan") {
        Some(
            (
                "link or archive (manual)".to_owned(),
                "orphan: no outbound part_of / related_to edges".to_owned(),
            ),
        )
    } else if str_eq(p, "shared-tag-bleed") {
        Some(
            (
                "review sub-cluster (manual)".to_owned(),
                "shared-tag-bleed: surfaced by split post-pass; no other pattern fired".to_owned(),
            ),
        )
    } else {
        None
    }
}

/// The suggested action and its rationale: those of the dominant pattern
/// among the labels, by the priority near-dup > related > temporal-log >
/// type-confused > low-signal > orphan > shared-tag-bleed, whatever order
/// the labels come in; "skip" when no label names a pattern.
pub fn suggested_action_for(patterns: &Vec<String>) -> (r: (String, String))
    ensures
        (r.0@, r.1@) == dominant_action(string_views(patterns@)),
{
    let ghost ps = string_views(patterns@);
    let mut best: u8 = 7;
    let mut i: usize = 0;
    while i < patterns.len()
        invariant
            i <= patterns@.len(),
            ps == string_views(patterns@),
            best as int == best_rank(ps, i as int),
            best <= 7,
        decreases patterns@.len() - i,
    {
        let r = rank_exec(patterns[i].as_str());
        if r < best {
            best = r;
        }
        i = i + 1;
    }
    if best < 7 {
        let label = rank_label_exec(best);
        match action_exec(label) {
            Some(a) => a,
            None => ("skip".to_owned(), "no dominant pattern".to_owned()),
        }
    } else {
        ("skip".to_owned(), "no dominant pattern".to_owned())
    }
}

/// Short cluster id: the first 8 characters of the canonical member id.
pub fn cluster_id_for(canonical: &str) -> (r: String)
    ensures
        r@ == text::take_chars(canonical@, 8),
{
    let c = chars_of(canonical);
    string_of(take_chars_exec(&c, 8).as_slice())
}

// ---------------------------------------------------------------------------
// Splitting an oversized cluster
// ---------------------------------------------------------------------------

/// One edge of the similarity graph between two candidate indices.
/// `strong` records whether the edge's score reached the split cutoff.
#[derive(Debug, Clone, Copy)]
pub struct Edge {
    pub from: usize,
    pub to: usize,
    pub strong: bool,
}

/// Sub-components that survived a split (each a list of positions in the
/// member list, ascending) and the number of members that fell out.
#[derive(Debug, Clone)]
pub struct SplitResult {
    pub sub_components: Vec<Vec<usize>>,
    pub dropped_count: usize,
}

/// Last position below `k` at which `mi` holds `x`.
pub open spec fn last_pos(mi: Seq<usize>, x: usize, k: int) -> Option<int>
    decreases k,
{
    if k <= 0 {
        None
    } else if mi[k - 1] == x {
        Some(k - 1)
    } else {
        last_pos(mi, x, k - 1)
    }
}

/// The position of a candidate index in the member list (the last one,
/// should it occur twice).
pub open spec fn local_of(mi: Seq<usize>, x: usize) -> Option<int> {
    last_pos(mi, x, mi.len() as int)
}

/// An edge takes part in the split: both ends lie in the component, the
/// edge is strong, and both ends are members.
pub open spec fn edge_kept(mi: Seq<usize>, roots: Seq<usize>, croot: usize, e: Edge) -> bool {
    &&& roots[e.from as int] == croot
    &&& roots[e.to as int] == croot
    &&& e.strong
    &&& local_of(mi, e.from) is Some
    &&& local_of(mi, e.to) is Some
}

/// Member-position pairs joined by the first `k` edges that take part.
pub open spec fn split_pairs(
    mi: Seq<usize>,
    es: Seq<Edge>,
    roots: Seq<usize>,
    croot: usize,
    k: int,
) -> Seq<(int, int)>
    decreases k,
{
    if k <= 0 {
        Seq::empty()
    } else {
        let prev = split_pairs(mi, es, roots, croot, k - 1);
        let e = es[k - 1];
        if edge_kept(mi, roots, croot, e) {
            prev.push((local_of(mi, e.from).unwrap(), local_of(mi, e.to).unwrap()))
        } else {
            prev
        }
    }
}

/// Member position `i` is an end of one of the pairs.
pub open spec fn touched(pairs: Seq<(int, int)>, i: int) -> bool {
    exists|k: int| 0 <= k < pairs.len() && (#[trigger] pairs[k].0 == i || pairs[k].1 == i)
}

pub open spec fn all_pairs(mi: Seq<usize>, es: Seq<Edge>, roots: Seq<usize>, croot: usize) -> Seq<(int, int)> {
    split_pairs(mi, es, roots, croot, es.len() as int)
}

/// Root (least member position) of every member's sub-class.
pub open spec fn split_roots(mi: Seq<usize>, es: Seq<Edge>, roots: Seq<usize>, croot: usize) -> Seq<usize> {
    let p = all_pairs(mi, es, roots, croot);
    Seq::new(mi.len(), |i: int| partition::merged_roots(mi.len(), p, p.len() as int)[i] as usize)
}

/// Members that have at least one surviving edge.
pub open spec fn split_flags(mi: Seq<usize>, es: Seq<Edge>, roots: Seq<usize>, croot: usize) -> Seq<bool> {
    Seq::new(mi.len(), |i: int| touched(all_pairs(mi, es, roots, croot), i))
}

/// Groups with at least `min` members, in order.
pub open spec fn large_groups(gs: Seq<Seq<usize>>, min: int, k: int) -> Seq<Seq<usize>>
    decreases k,
{
    if k <= 0 {
        Seq::empty()
    } else if gs[k - 1].len() >= min {
        large_groups(gs, min, k - 1).push(gs[k - 1])
    } else {
        large_groups(gs, min, k - 1)
    }
}

/// Members below position `k` that end in no surviving sub-component.
pub open spec fn dropped_upto(rv: Seq<usize>, inc: Seq<bool>, min: int, k: int) -> nat
    decreases k,
{
    if k <= 0 {
        0
    } else {
        dropped_upto(rv, inc, min, k - 1) + if inc[k - 1] && partition::class_members(
            rv,
            inc,
            rv[k - 1],
            rv.len() as int,
        ).len() >= min {
            0nat
        } else {
            1nat
        }
    }
}

/// The sub-classes of members with a surviving edge, one per root in
/// ascending order of root.
pub open spec fn split_classes(mi: Seq<usize>, es: Seq<Edge>, roots: Seq<usize>, croot: usize) -> Seq<Seq<usize>> {
    let rv = split_roots(mi, es, roots, croot);
    let inc = split_flags(mi, es, roots, croot);
    let kr = partition::kept_roots(rv, inc, mi.len() as int);
    Seq::new(kr.len(), |g: int| partition::class_members(rv, inc, kr[g], mi.len() as int))
}

/// Total size of a list of groups.
pub open spec fn total_size(gs: Seq<Seq<usize>>) -> nat
    decreases gs.len(),
{
    if gs.len() == 0 {
        0
    } else {
        total_size(gs.drop_last()) + gs.last().len()
    }
}

/// Included members below `k` whose class (at its full extent `n`) is
/// large enough to keep.
pub open spec fn kept_members(rv: Seq<usize>, inc: Seq<bool>, min: int, n: int, k: int) -> nat
    decreases k,
{
    if k <= 0 {
        0
    } else {
        kept_members(rv, inc, min, n, k - 1) + if inc[k - 1] && partition::class_members(
            rv,
            inc,
            rv[k - 1],
            n,
        ).len() >= min {
            1nat
        } else {
            0nat
        }
    }
}

/// The members of class `r` below `k`, counted only when the class is
/// large enough at its full extent `n`.
pub open spec fn class_weight(rv: Seq<usize>, inc: Seq<bool>, min: int, n: int, k: int, r: usize) -> int {
    if partition::class_members(rv, inc, r, n).len() >= min {
        partition::class_members(rv, inc, r, k).len() as int
    } else {
        0
    }
}

pub open spec fn sum_weights(
    rv: Seq<usize>,
    inc: Seq<bool>,
    min: int,
    n: int,
    k: int,
    ks: Seq<usize>,
    g: int,
) -> int
    decreases g,
{
    if g <= 0 {
        0
    } else {
        sum_weights(rv, inc, min, n, k, ks, g - 1) + class_weight(rv, inc, min, n, k, ks[g - 1])
    }
}

proof fn lemma_dropped_plus_kept(rv: Seq<usize>, inc: Seq<bool>, min: int, k: int)
    requires
        0 <= k <= rv.len(),
    ensures
        dropped_upto(rv, inc, min, k) + kept_members(rv, inc, min, rv.len() as int, k) == k,
    decreases k,
{
    if k > 0 {
        lemma_dropped_plus_kept(rv, inc, min, k - 1);
    }
}

/// Adding member `k` to its class `r` changes no other class.
proof fn lemma_class_step(rv: Seq<usize>, inc: Seq<bool>, x: usize, k: int)
    requires
        0 <= k < rv.len(),
        rv.len() == inc.len(),
    ensures
        (inc[k] && rv[k] == x) ==> partition::class_members(rv, inc, x, k + 1).len()
            == partition::class_members(rv, inc, x, k).len() + 1,
        !(inc[k] && rv[k] == x) ==> partition::class_members(rv, inc, x, k + 1)
            == partition::class_members(rv, inc, x, k),
{
}

/// Sum of weights over distinct roots `ks[..g]` when member `k` joins
/// class `r`: only `r`'s weight can grow, by one if its class is kept.
proof fn lemma_sum_weights_step(
    rv: Seq<usize>,
    inc: Seq<bool>,
    min: int,
    n: int,
    k: int,
    ks: Seq<usize>,
    g: int,
)
    requires
        0 <= k < rv.len(),
        rv.len() == inc.len(),
        inc[k],
        0 <= g <= ks.len(),
        forall|a: int, b: int| 0 <= a < b < ks.len() ==> #[trigger] ks[a] != #[trigger] ks[b],
    ensures
        sum_weights(rv, inc, min, n, k + 1, ks, g) == sum_weights(rv, inc, min, n, k, ks, g) + if (
        exists|a: int| 0 <= a < g && #[trigger] ks[a] == rv[k]) && partition::class_members(
            rv,
            inc,
            rv[k],
            n,
        ).len() >= min {
            1int
        } else {
            0int
        },
    decreases g,
{
    if g > 0 {
        lemma_sum_weights_step(rv, inc, min, n, k, ks, g - 1);
        lemma_class_step(rv, inc, ks[g - 1], k);
        if ks[g - 1] == rv[k] {
            assert(!(exists|a: int| 0 <= a < g - 1 && #[trigger] ks[a] == rv[k]));
        } else {
            if exists|a: int| 0 <= a < g && #[trigger] ks[a] == rv[k] {
                let a = choose|a: int| 0 <= a < g && #[trigger] ks[a] == rv[k];
                assert(a < g - 1);
            }
        }
    }
}

/// When member `k` is not included, no weight changes.
proof fn lemma_sum_weights_skip(
    rv: Seq<usize>,
    inc: Seq<bool>,
    min: int,
    n: int,
    k: int,
    ks: Seq<usize>,
    g: int,
)
    requires
        0 <= k < rv.len(),
        rv.len() == inc.len(),
        !inc[k],
        0 <= g <= ks.len(),
    ensures
        sum_weights(rv, inc, min, n, k + 1, ks, g) == sum_weights(rv, inc, min, n, k, ks, g),
    decreases g,
{
    if g > 0 {
        lemma_sum_weights_skip(rv, inc, min, n, k, ks, g - 1);
        lemma_class_step(rv, inc, ks[g - 1], k);
    }
}

proof fn lemma_class_members_above(rv: Seq<usize>, inc: Seq<bool>, r: usize, k: int)
    requires
        0 <= k <= rv.len(),
        r >= k,
        forall|j: int| 0 <= j < rv.len() ==> #[trigger] rv[j] <= j,
    ensures
        partition::class_members(rv, inc, r, k).len() == 0,
    decreases k,
{
    if k > 0 {
        lemma_class_members_above(rv, inc, r, k - 1);
    }
}

/// The kept roots' weights add up to the kept members, at every prefix.
proof fn lemma_weights_count_members(rv: Seq<usize>, inc: Seq<bool>, min: int, k: int)
    requires
        partition::roots_closed(rv, inc),
        0 <= k <= rv.len(),
    ensures
        sum_weights(
            rv,
            inc,
            min,
            rv.len() as int,
            k,
            partition::kept_roots(rv, inc, k),
            partition::kept_roots(rv, inc, k).len() as int,
        ) == kept_members(rv, inc, min, rv.len() as int, k),
    decreases k,
{
    let n = rv.len() as int;
    if k > 0 {
        lemma_weights_count_members(rv, inc, min, k - 1);
        let kp = partition::kept_roots(rv, inc, k - 1);
        let kk = partition::kept_roots(rv, inc, k);
        partition::lemma_kept_roots_shape(rv, inc, k - 1);
        partition::lemma_kept_roots_shape(rv, inc, k);
        let j = k - 1;
        assert(rv[j] <= j && rv[rv[j] as int] == rv[j]);
        if !inc[j] {
            assert(kk == kp);
            lemma_sum_weights_skip(rv, inc, min, n, j, kp, kp.len() as int);
        } else if rv[j] as int == j {
            assert(kk == kp.push(j as usize));
            lemma_sum_weights_step(rv, inc, min, n, j, kp, kp.len() as int);
            assert(!(exists|a: int| 0 <= a < kp.len() && #[trigger] kp[a] == rv[j]));
            assert forall|g: int| 0 <= g <= kp.len() implies sum_weights(rv, inc, min, n, k, kk, g)
                == sum_weights(rv, inc, min, n, k, kp, g) by {
                assert forall|x: int| 0 <= x < g implies #[trigger] kk[x] == kp[x] by {}
                lemma_sum_weights_prefix(rv, inc, min, n, k, kk, kp, g);
            }
            lemma_class_step(rv, inc, j as usize, j);
            lemma_class_members_above(rv, inc, j as usize, j);
        } else {
            assert(kk == kp);
            let r = rv[j];
            assert(inc[r as int]);
            let x = partition::kept_root_index(rv, inc, k - 1, r as int);
            lemma_sum_weights_step(rv, inc, min, n, j, kp, kp.len() as int);
            assert(kp[x] == rv[j]);
        }
    }
}

proof fn lemma_sum_weights_prefix(
    rv: Seq<usize>,
    inc: Seq<bool>,
    min: int,
    n: int,
    k: int,
    a: Seq<usize>,
    b: Seq<usize>,
    g: int,
)
    requires
        0 <= g <= a.len(),
        g <= b.len(),
        forall|x: int| 0 <= x < g ==> #[trigger] a[x] == b[x],
    ensures
        sum_weights(rv, inc, min, n, k, a, g) == sum_weights(rv, inc, min, n, k, b, g),
    decreases g,
{
    if g > 0 {
        lemma_sum_weights_prefix(rv, inc, min, n, k, a, b, g - 1);
    }
}

proof fn lemma_large_groups_total(rv: Seq<usize>, inc: Seq<bool>, min: int, g: int)
    requires
        0 <= g <= partition::kept_roots(rv, inc, rv.len() as int).len(),
    ensures
        total_size(
            large_groups(
                Seq::new(
                    partition::kept_roots(rv, inc, rv.len() as int).len(),
                    |x: int|
                        partition::class_members(
                            rv,
                            inc,
                            partition::kept_roots(rv, inc, rv.len() as int)[x],
                            rv.len() as int,
                        ),
                ),
                min,
                g,
            ),
        ) == sum_weights(
            rv,
            inc,
            min,
            rv.len() as int,
            rv.len() as int,
            partition::kept_roots(rv, inc, rv.len() as int),
            g,
        ),
    decreases g,
{
    let kr = partition::kept_roots(rv, inc, rv.len() as int);
    let gs = Seq::new(
        kr.len(),
        |x: int| partition::class_members(rv, inc, kr[x], rv.len() as int),
    );
    if g > 0 {
        lemma_large_groups_total(rv, inc, min, g - 1);
        let prev = large_groups(gs, min, g - 1);
        if gs[g - 1].len() >= min {
            assert(large_groups(gs, min, g) == prev.push(gs[g - 1]));
            assert(prev.push(gs[g - 1]).drop_last() =~= prev);
        }
    }
}

/// Every member of a split either lands in a kept group or is counted
/// as dropped.
pub proof fn law_split_accounts_for_members(rv: Seq<usize>, inc: Seq<bool>, min: int)
    requires
        partition::roots_closed(rv, inc),
    ensures
        total_size(
            large_groups(
                Seq::new(
                    partition::kept_roots(rv, inc, rv.len() as int).len(),
                    |x: int|
                        partition::class_members(
                            rv,
                            inc,
                            partition::kept_roots(rv, inc, rv.len() as int)[x],
                            rv.len() as int,
                        ),
                ),
                min,
                partition::kept_roots(rv, inc, rv.len() as int).len() as int,
            ),
        ) + dropped_upto(rv, inc, min, rv.len() as int) == rv.len(),
{
    let n = rv.len() as int;
    lemma_large_groups_total(rv, inc, min, partition::kept_roots(rv, inc, n).len() as int);
    lemma_weights_count_members(rv, inc, min, n);
    lemma_dropped_plus_kept(rv, inc, min, n);
}

fn local_index(mi: &Vec<usize>, x: usize) -> (r: Option<usize>)
    ensures
        match r {
            Some(i) => local_of(mi@, x) == Some(i as int),
            None => local_of(mi@, x) is None,
        },
{
    let mut k: usize = mi.len();
    while k > 0
        invariant
            k <= mi@.len(),
            local_of(mi@, x) == last_pos(mi@, x, k as int),
        decreases k,
    {
        if mi[k - 1] == x {
            return Some(k - 1);
        }
        k = k - 1;
    }
    None
}

proof fn lemma_last_pos_range(mi: Seq<usize>, x: usize, k: int)
    requires
        0 <= k <= mi.len(),
    ensures
        last_pos(mi, x, k) matches Some(i) ==> 0 <= i < k && mi[i] == x,
    decreases k,
{
    if k > 0 {
        lemma_last_pos_range(mi, x, k - 1);
    }
}

fn copy_usizes(v: &Vec<usize>) -> (r: Vec<usize>)
    ensures
        r@ == v@,
{
    let mut out: Vec<usize> = Vec::new();
    let mut i: usize = 0;
    while i < v.len()
        invariant
            i <= v@.len(),
            out@ == v@.take(i as int),
        decreases v@.len() - i,
    {
        out.push(v[i]);
        i = i + 1;
        assert(out@ =~= v@.take(i as int));
    }
    assert(v@.take(v@.len() as int) =~= v@);
    out
}

/// Re-cluster the members of an oversized component using only its strong
/// edges: an edge counts when both its ends have `component_root` as
/// their root in `roots`, it is strong, and both ends are members. The
/// members joined by such edges are grouped by sub-class (ascending
/// order of the sub-class's least position); groups smaller than
/// `min_cluster_size` are discarded. Members without a counted edge, and
/// those of discarded groups, are counted as dropped.
pub fn split_oversized_cluster(
    member_idxs: &Vec<usize>,
    edges: &Vec<Edge>,
    roots: &Vec<usize>,
    component_root: usize,
    min_cluster_size: usize,
) -> (r: SplitResult)
    requires
        forall|k: int|
            0 <= k < edges@.len() ==> (#[trigger] edges@[k]).from < roots@.len() && edges@[k].to
                < roots@.len(),
    ensures
        r.sub_components@.map_values(|g: Vec<usize>| g@) == large_groups(
            split_classes(member_idxs@, edges@, roots@, component_root),
            min_cluster_size as int,
            split_classes(member_idxs@, edges@, roots@, component_root).len() as int,
        ),
        r.dropped_count == dropped_upto(
            split_roots(member_idxs@, edges@, roots@, component_root),
            split_flags(member_idxs@, edges@, roots@, component_root),
            min_cluster_size as int,
            member_idxs@.len() as int,
        ),
        total_size(r.sub_components@.map_values(|g: Vec<usize>| g@)) + r.dropped_count
            == member_idxs@.len(),
{
    let n = member_idxs.len();
    let ghost mi = member_idxs@;
    let ghost es = edges@;
    let ghost rs = roots@;
    let mut uf = UnionFind::new(n);
    let mut flags: Vec<bool> = Vec::new();
    let mut z: usize = 0;
    while z < n
        invariant
            z <= n,
            flags@.len() == z,
            forall|i: int| 0 <= i < z ==> !#[trigger] flags@[i],
        decreases n - z,
    {
        flags.push(false);
        z = z + 1;
    }
    proof {
        assert forall|i: int| 0 <= i < n implies #[trigger] flags@[i] == touched(
            split_pairs(mi, es, rs, component_root, 0),
            i,
        ) by {}
    }
    let mut k: usize = 0;
    while k < edges.len()
        invariant
            n == mi.len(),
            mi == member_idxs@,
            es == edges@,
            rs == roots@,
            k <= es.len(),
            forall|j: int|
                0 <= j < es.len() ==> (#[trigger] es[j]).from < rs.len() && es[j].to < rs.len(),
            uf.wf(),
            flags@.len() == n,
            partition::pairs_in_range(n as nat, split_pairs(mi, es, rs, component_root, k as int)),
            uf.roots() == partition::merged_roots(
                n as nat,
                split_pairs(mi, es, rs, component_root, k as int),
                split_pairs(mi, es, rs, component_root, k as int).len() as int,
            ),
            forall|i: int|
                0 <= i < n ==> #[trigger] flags@[i] == touched(
                    split_pairs(mi, es, rs, component_root, k as int),
                    i,
                ),
            forall|j: int|
                0 <= j < n && #[trigger] uf.roots()[j] != j ==> flags@[j] && flags@[uf.roots()[j]],
        decreases es.len() - k,
    {
        let ghost p = split_pairs(mi, es, rs, component_root, k as int);
        let e = edges[k];
        let li = local_index(member_idxs, e.from);
        let lj = local_index(member_idxs, e.to);
        let in_comp = roots[e.from] == component_root && roots[e.to] == component_root;
        if in_comp && e.strong && li.is_some() && lj.is_some() {
            let a = li.unwrap();
            let b = lj.unwrap();
            proof {
                lemma_last_pos_range(mi, e.from, n as int);
                lemma_last_pos_range(mi, e.to, n as int);
                partition::lemma_merged_roots_wf(n as nat, p, p.len() as int);
            }
            let ghost m0 = uf.roots();
            let ghost p2 = p.push((a as int, b as int));
            proof {
                assert(split_pairs(mi, es, rs, component_root, k + 1) == p2);
                partition::lemma_merged_roots_prefix(n as nat, p2, p, p.len() as int);
            }
            uf.union(a, b);
            flags.set(a, true);
            flags.set(b, true);
            proof {
                assert(uf.roots() == partition::merged_roots(n as nat, p2, p2.len() as int));
                assert forall|i: int| 0 <= i < n implies #[trigger] flags@[i] == touched(p2, i) by {
                    if i == a || i == b {
                        assert(p2[p.len() as int] == (a as int, b as int));
                    } else if touched(p, i) {
                        let w = choose|w: int| 0 <= w < p.len() && (#[trigger] p[w].0 == i || p[w].1 == i);
                        assert(p2[w] == p[w]);
                    } else {
                        assert forall|w: int| 0 <= w < p2.len() implies !(#[trigger] p2[w].0 == i
                            || p2[w].1 == i) by {
                            if w < p.len() {
                                assert(p2[w] == p[w]);
                            }
                        }
                    }
                }
                assert(partition::pairs_in_range(n as nat, p2));
                let ra = m0[a as int];
                let rb = m0[b as int];
                assert forall|j: int|
                    0 <= j < n && #[trigger] uf.roots()[j] != j implies flags@[j] && flags@[uf.roots()[j]] by {
                    let lo = if ra < rb { ra } else { rb };
                    assert(flags@[a as int]);
                    assert(flags@[b as int]);
                    assert(flags@[ra]);
                    assert(flags@[rb]);
                    if m0[j] == ra || m0[j] == rb {
                        assert(uf.roots()[j] == lo);
                    } else {
                        assert(uf.roots()[j] == m0[j]);
                    }
                }
            }
        } else {
            proof {
                assert(split_pairs(mi, es, rs, component_root, k + 1) == p);
            }
        }
        k = k + 1;
    }
    let ghost pf = split_pairs(mi, es, rs, component_root, es.len() as int);
    proof {
        partition::lemma_merged_roots_wf(n as nat, pf, pf.len() as int);
    }
    // Root of every member.
    let mut rv: Vec<usize> = Vec::new();
    let mut i: usize = 0;
    while i < n
        invariant
            i <= n,
            n == mi.len(),
            uf.wf(),
            uf.roots() == partition::merged_roots(n as nat, pf, pf.len() as int),
            uf.roots().len() == n,
            rv@.len() == i,
            forall|j: int| 0 <= j < i ==> #[trigger] rv@[j] as int == uf.roots()[j],
        decreases n - i,
    {
        let r = uf.find(i);
        rv.push(r);
        i = i + 1;
    }
    proof {
        partition::lemma_merged_roots_wf(n as nat, pf, pf.len() as int);
        assert(rv@ =~= split_roots(mi, es, rs, component_root));
        assert(flags@ =~= split_flags(mi, es, rs, component_root));
        let m = uf.roots();
        assert forall|j: int| 0 <= j < rv@.len() implies #[trigger] rv@[j] <= j && rv@[rv@[j] as int]
            == rv@[j] && (flags@[j] ==> flags@[rv@[j] as int]) by {
            assert(0 <= m[j] <= j && m[m[j]] == m[j]);
        }
    }
    let (kr, groups) = group_by_root(&rv, &flags);
    let ghost gs = split_classes(mi, es, rs, component_root);
    proof {
        assert(groups@.map_values(|g: Vec<usize>| g@) =~= gs);
    }
    // Keep the large groups.
    let mut subs: Vec<Vec<usize>> = Vec::new();
    let mut g: usize = 0;
    while g < groups.len()
        invariant
            g <= groups@.len(),
            groups@.map_values(|x: Vec<usize>| x@) == gs,
            subs@.map_values(|x: Vec<usize>| x@) == large_groups(gs, min_cluster_size as int, g as int),
        decreases groups@.len() - g,
    {
        proof {
            assert(gs[g as int] == groups@[g as int]@);
        }
        if groups[g].len() >= min_cluster_size {
            let c = copy_usizes(&groups[g]);
            subs.push(c);
        }
        g = g + 1;
        proof {
            assert(subs@.map_values(|x: Vec<usize>| x@) =~= large_groups(
                gs,
                min_cluster_size as int,
                g as int,
            ));
        }
    }
    // Size of the sub-class of every root.
    let mut size_of: Vec<usize> = Vec::new();
    let mut z2: usize = 0;
    while z2 < n
        invariant
            z2 <= n,
            size_of@.len() == z2,
        decreases n - z2,
    {
        size_of.push(0);
        z2 = z2 + 1;
    }
    let mut h: usize = 0;
    proof {
        partition::lemma_kept_roots_shape(rv@, flags@, n as int);
    }
    while h < kr.len()
        invariant
            n == rv@.len(),
            size_of@.len() == n,
            h <= kr@.len(),
            kr@ == partition::kept_roots(rv@, flags@, n as int),
            groups@.len() == kr@.len(),
            forall|x: int|
                0 <= x < groups@.len() ==> #[trigger] groups@[x]@ == partition::class_members(
                    rv@,
                    flags@,
                    kr@[x],
                    n as int,
                ),
            forall|x: int| 0 <= x < kr@.len() ==> #[trigger] kr@[x] < n,
            forall|x: int, y: int| 0 <= x < y < kr@.len() ==> #[trigger] kr@[x] < #[trigger] kr@[y],
            forall|x: int| 0 <= x < h ==> size_of@[#[trigger] kr@[x] as int] == groups@[x]@.len(),
        decreases kr@.len() - h,
    {
        let sz = groups[h].len();
        size_of.set(kr[h], sz);
        h = h + 1;
        proof {
            assert forall|x: int| 0 <= x < h implies size_of@[#[trigger] kr@[x] as int]
                == groups@[x]@.len() by {
                if x < h - 1 {
                    assert(kr@[x] < kr@[h - 1]);
                }
            }
        }
    }
    // Count the members that end in no kept group.
    let mut dropped: usize = 0;
    let mut q: usize = 0;
    while q < n
        invariant
            q <= n,
            n == rv@.len(),
            n == flags@.len(),
            size_of@.len() == n,
            partition::roots_closed(rv@, flags@),
            kr@ == partition::kept_roots(rv@, flags@, n as int),
            groups@.len() == kr@.len(),
            forall|x: int|
                0 <= x < groups@.len() ==> #[trigger] groups@[x]@ == partition::class_members(
                    rv@,
                    flags@,
                    kr@[x],
                    n as int,
                ),
            forall|x: int| 0 <= x < kr@.len() ==> size_of@[#[trigger] kr@[x] as int] == groups@[x]@.len(),
            dropped == dropped_upto(rv@, flags@, min_cluster_size as int, q as int),
            dropped <= q,
        decreases n - q,
    {
        let mut keep = false;
        if flags[q] {
            let r = rv[q];
            proof {
                let x = partition::kept_root_index(rv@, flags@, n as int, r as int);
                assert(size_of@[kr@[x] as int] == groups@[x]@.len());
            }
            keep = size_of[r] >= min_cluster_size;
        }
        if !keep {
            dropped = dropped + 1;
        }
        q = q + 1;
    }
    proof {
        law_split_accounts_for_members(rv@, flags@, min_cluster_size as int);
        assert(rv@ =~= split_roots(mi, es, rs, component_root));
        assert(flags@ =~= split_flags(mi, es, rs, component_root));
    }
    SplitResult { sub_components: subs, dropped_count: dropped }
}

// ---------------------------------------------------------------------------
// Member order
// ---------------------------------------------------------------------------

/// The slug a member sorts by: its slug, or the empty string.
pub open spec fn slug_key(m: UnitSignals) -> Seq<char> {
    match m.slug {
        Some(s) => s@,
        None => Seq::empty(),
    }
}

/// `x` sorts strictly before `e`: by slug (absent slugs as empty), then
/// by id.
pub open spec fn member_before(x: UnitSignals, e: UnitSignals) -> bool {
    text::lex_lt(slug_key(x), slug_key(e)) || (slug_key(x) == slug_key(e) && text::lex_lt(
        x.id@,
        e.id@,
    ))
}

/// Where `x` enters the sorted `s`: before the first member it sorts
/// strictly before, so after every member it ties with.
pub open spec fn member_insert_pos(s: Seq<UnitSignals>, x: UnitSignals, i: int) -> int
    decreases s.len() - i,
{
    if i < 0 || i >= s.len() {
        i
    } else if member_before(x, s[i]) {
        i
    } else {
        member_insert_pos(s, x, i + 1)
    }
}

/// Stable sort of members by (slug or empty, id).
pub open spec fn sorted_members(s: Seq<UnitSignals>) -> Seq<UnitSignals>
    decreases s.len(),
{
    if s.len() == 0 {
        Seq::empty()
    } else {
        let sorted = sorted_members(s.drop_last());
        sorted.insert(member_insert_pos(sorted, s.last(), 0), s.last())
    }
}

proof fn lemma_member_insert_pos_bounds(s: Seq<UnitSignals>, x: UnitSignals, i: int)
    requires
        0 <= i <= s.len(),
    ensures
        i <= member_insert_pos(s, x, i) <= s.len(),
    decreases s.len() - i,
{
    if i < s.len() && !member_before(x, s[i]) {
        lemma_member_insert_pos_bounds(s, x, i + 1);
    }
}

proof fn lemma_member_before_transitive(x: UnitSignals, y: UnitSignals, z: UnitSignals)
    requires
        member_before(x, y),
        member_before(y, z),
    ensures
        member_before(x, z),
{
    if text::lex_lt(slug_key(x), slug_key(y)) && text::lex_lt(slug_key(y), slug_key(z)) {
        text::law_lex_order_transitive(slug_key(x), slug_key(y), slug_key(z));
    } else if slug_key(x) == slug_key(y) && slug_key(y) == slug_key(z) {
        text::law_lex_order_transitive(x.id@, y.id@, z.id@);
    }
}

proof fn lemma_member_insert_pos_props(s: Seq<UnitSignals>, x: UnitSignals, i: int)
    requires
        0 <= i <= s.len(),
        forall|q: int| 0 <= q < i ==> !member_before(x, #[trigger] s[q]),
    ensures
        i <= member_insert_pos(s, x, i) <= s.len(),
        forall|q: int| 0 <= q < member_insert_pos(s, x, i) ==> !member_before(x, #[trigger] s[q]),
        member_insert_pos(s, x, i) < s.len() ==> member_before(x, s[member_insert_pos(s, x, i)]),
    decreases s.len() - i,
{
    if i < s.len() && !member_before(x, s[i]) {
        lemma_member_insert_pos_props(s, x, i + 1);
    }
}

/// No member of `s` sorts strictly before one that precedes it.
pub open spec fn members_ordered(s: Seq<UnitSignals>) -> bool {
    forall|p: int, q: int| 0 <= p < q < s.len() ==> !member_before(#[trigger] s[q], #[trigger] s[p])
}

/// Sorting members keeps every member, each as often as before, and puts
/// them in (slug, id) order.
pub proof fn law_sorted_members_is_ordered_permutation(s: Seq<UnitSignals>)
    ensures
        sorted_members(s).to_multiset() == s.to_multiset(),
        members_ordered(sorted_members(s)),
    decreases s.len(),
{
    if s.len() == 0 {
        assert(sorted_members(s) =~= s);
    } else {
        let o = sorted_members(s.drop_last());
        let x = s.last();
        law_sorted_members_is_ordered_permutation(s.drop_last());
        lemma_member_insert_pos_props(o, x, 0);
        let p = member_insert_pos(o, x, 0);
        let t = o.insert(p, x);
        vstd::seq_lib::to_multiset_insert(o, p, x);
        assert(s =~= s.drop_last().push(x));
        vstd::seq_lib::to_multiset_build(s.drop_last(), x);
        assert forall|a: int, b: int| 0 <= a < b < t.len() implies !member_before(
            #[trigger] t[b],
            #[trigger] t[a],
        ) by {
            if b < p {
                assert(t[b] == o[b] && t[a] == o[a]);
            } else if b == p {
                assert(t[a] == o[a]);
            } else {
                assert(t[b] == o[b - 1]);
                if a < p {
                    assert(t[a] == o[a]);
                } else if a == p {
                    if member_before(o[b - 1], x) {
                        lemma_member_before_transitive(o[b - 1], x, o[p]);
                        text::law_lex_order_strict_total(slug_key(o[p]), slug_key(o[p]));
                        text::law_lex_order_strict_total(o[p].id@, o[p].id@);
                    }
                } else {
                    assert(t[a] == o[a - 1]);
                }
            }
        }
    }
}

fn slug_key_chars(m: &UnitSignals) -> (r: Vec<char>)
    ensures
        r@ == slug_key(*m),
{
    match &m.slug {
        Some(s) => chars_of(s.as_str()),
        None => Vec::new(),
    }
}

fn member_before_exec(x: &UnitSignals, e: &UnitSignals) -> (r: bool)
    ensures
        r == member_before(*x, *e),
{
    let xs = slug_key_chars(x);
    let es = slug_key_chars(e);
    if lex_lt_exec(&xs, &es) {
        true
    } else if text::chars_eq(&xs, &es) {
        let xi = chars_of(x.id.as_str());
        let ei = chars_of(e.id.as_str());
        lex_lt_exec(&xi, &ei)
    } else {
        false
    }
}

/// Members in a stable, reproducible order: by slug (a missing slug sorts
/// as the empty string), then by id.
pub fn sort_members(members: Vec<UnitSignals>) -> (r: Vec<UnitSignals>)
    ensures
        r@ == sorted_members(members@),
        r@.to_multiset() == members@.to_multiset(),
        members_ordered(r@),
{
    proof {
        law_sorted_members_is_ordered_permutation(members@);
    }
    let ghost s0 = members@;
    assert(s0.len() == members.len());
    let mut rest = members;
    let mut sorted: Vec<UnitSignals> = Vec::new();
    let mut i: usize = 0;
    assert(sorted@ =~= sorted_members(s0.take(0)));
    while rest.len() > 0
        invariant
            i <= s0.len(),
            s0.len() <= usize::MAX,
            rest@ == s0.subrange(i as int, s0.len() as int),
            sorted@ == sorted_members(s0.take(i as int)),
        decreases rest@.len(),
    {
        let x = rest.remove(0);
        let ghost ss = sorted@;
        proof {
            lemma_member_insert_pos_bounds(ss, x, 0);
        }
        let mut p: usize = 0;
        while p < sorted.len() && !member_before_exec(&x, &sorted[p])
            invariant
                p <= sorted@.len(),
                ss == sorted@,
                member_insert_pos(ss, x, p as int) == member_insert_pos(ss, x, 0),
            decreases sorted@.len() - p,
        {
            p = p + 1;
        }
        sorted.insert(p, x);
        proof {
            let t = s0.take(i + 1);
            assert(t.drop_last() =~= s0.take(i as int));
            assert(t.last() == x);
        }
        i = i + 1;
        proof {
            assert(rest@ =~= s0.subrange(i as int, s0.len() as int));
        }
    }
    assert(s0.take(i as int) =~= s0);
    sorted
}

// ---------------------------------------------------------------------------
// Components of the similarity graph
// ---------------------------------------------------------------------------

/// Every edge as a pair of candidate indices.
pub open spec fn edge_pairs(es: Seq<Edge>) -> Seq<(int, int)> {
    Seq::new(es.len(), |k: int| (es[k].from as int, es[k].to as int))
}

/// Root (least index) of every candidate's component once all edges are
/// joined.
pub open spec fn component_roots(n: nat, es: Seq<Edge>) -> Seq<usize> {
    Seq::new(
        n,
        |i: int| partition::merged_roots(n, edge_pairs(es), es.len() as int)[i] as usize,
    )
}

pub open spec fn all_included(n: nat) -> Seq<bool> {
    Seq::new(n, |i: int| true)
}

/// Connected components of the candidates `0..n` under `edges`: the root
/// of every candidate, the component roots in ascending order, and the
/// members of each component in ascending order.
pub fn connected_components(n: usize, edges: &Vec<Edge>) -> (r: (
    Vec<usize>,
    Vec<usize>,
    Vec<Vec<usize>>,
))
    requires
        forall|k: int|
            0 <= k < edges@.len() ==> (#[trigger] edges@[k]).from < n && edges@[k].to < n,
    ensures
        r.0@ == component_roots(n as nat, edges@),
        r.1@ == partition::kept_roots(
            component_roots(n as nat, edges@),
            all_included(n as nat),
            n as int,
        ),
        r.2@.len() == r.1@.len(),
        forall|g: int|
            0 <= g < r.2@.len() ==> #[trigger] r.2@[g]@ == partition::class_members(
                component_roots(n as nat, edges@),
                all_included(n as nat),
                r.1@[g],
                n as int,
            ),
{
    let ghost ps = edge_pairs(edges@);
    let mut uf = UnionFind::new(n);
    let mut k: usize = 0;
    while k < edges.len()
        invariant
            k <= edges@.len(),
            ps == edge_pairs(edges@),
            forall|j: int|
                0 <= j < edges@.len() ==> (#[trigger] edges@[j]).from < n && edges@[j].to < n,
            uf.wf(),
            uf.roots() == partition::merged_roots(n as nat, ps, k as int),
            uf.roots().len() == n,
        decreases edges@.len() - k,
    {
        let e = edges[k];
        proof {
            assert(ps[k as int] == (e.from as int, e.to as int));
        }
        uf.union(e.from, e.to);
        k = k + 1;
    }
    proof {
        assert(partition::pairs_in_range(n as nat, ps));
        partition::lemma_merged_roots_wf(n as nat, ps, ps.len() as int);
    }
    let mut rv: Vec<usize> = Vec::new();
    let mut inc: Vec<bool> = Vec::new();
    let mut i: usize = 0;
    while i < n
        invariant
            i <= n,
            uf.wf(),
            uf.roots() == partition::merged_roots(n as nat, ps, ps.len() as int),
            uf.roots().len() == n,
            rv@.len() == i,
            inc@.len() == i,
            forall|j: int| 0 <= j < i ==> #[trigger] rv@[j] as int == uf.roots()[j],
            forall|j: int| 0 <= j < i ==> #[trigger] inc@[j],
        decreases n - i,
    {
        let r = uf.find(i);
        rv.push(r);
        inc.push(true);
        proof {
            assert(rv@[i as int] as int == uf.roots()[i as int]);
            assert(inc@[i as int]);
        }
        i = i + 1;
    }
    proof {
        assert(rv@ =~= component_roots(n as nat, edges@));
        assert(inc@ =~= all_included(n as nat));
        let m = partition::merged_roots(n as nat, ps, ps.len() as int);
        assert forall|j: int| 0 <= j < rv@.len() implies #[trigger] rv@[j] <= j && rv@[rv@[j] as int]
            == rv@[j] && (inc@[j] ==> inc@[rv@[j] as int]) by {
            assert(0 <= m[j] <= j && m[m[j]] == m[j]);
        }
    }
    let (kr, groups) = group_by_root(&rv, &inc);
    (rv, kr, groups)
}

// ---------------------------------------------------------------------------
// Building a reported cluster
// ---------------------------------------------------------------------------

/// A reported cluster: the similarity averages are added by the caller.
#[derive(Debug, Clone)]
pub struct Cluster {
    pub cluster_id: String,
    pub patterns: Vec<String>,
    pub suggested_action: String,
    pub reason: String,
    pub members: Vec<ClusterMember>,
    pub split_from: Option<String>,
}

pub open spec fn member_of(s: UnitSignals) -> ClusterMember {
    ClusterMember {
        id: s.id,
        slug: s.slug,
        unit_type: s.unit_type,
        age_days: s.age_days,
        marks: s.marks,
        content_preview: s.content_preview,
        body_length: s.body_length,
        tag_count: s.tag_count,
    }
}

/// The patterns a cluster is reported with, or `None` when it is not
/// reported: multi-member clusters of at least `min` members get the
/// cluster patterns, a lone member the singleton patterns, anything else
/// none; a sub-cluster carved out by a split that matched nothing is
/// labelled shared-tag-bleed.
pub open spec fn reported_patterns(
    ms: Seq<UnitSignals>,
    vec_near_dup: bool,
    overlap_near_dup: bool,
    vec_type_confused: bool,
    is_split: bool,
    min: int,
) -> Option<Seq<Seq<char>>> {
    let base = if ms.len() >= min {
        cluster_patterns(ms, vec_near_dup, overlap_near_dup, vec_type_confused)
    } else if ms.len() == 1 {
        singleton_patterns(ms[0])
    } else {
        Seq::empty()
    };
    if base.len() > 0 {
        Some(base)
    } else if is_split {
        Some(seq![shared_tag_bleed()])
    } else {
        None
    }
}

/// Count of the entry for `key` in a tally with distinct keys (0 when
/// absent).
pub open spec fn tally_count(t: Seq<(String, usize)>, key: Seq<char>) -> int
    decreases t.len(),
{
    if t.len() == 0 {
        0
    } else if t.last().0@ == key {
        t.last().1 as int
    } else {
        tally_count(t.drop_last(), key)
    }
}

/// Keys of the tally are pairwise distinct.
pub open spec fn tally_distinct(t: Seq<(String, usize)>) -> bool {
    forall|i: int, j: int| 0 <= i < j < t.len() ==> #[trigger] t[i].0@ != #[trigger] t[j].0@
}

/// The tally is in ascending order of pattern name.
pub open spec fn tally_sorted(t: Seq<(String, usize)>) -> bool {
    forall|p: int, q: int| 0 <= p < q < t.len() ==> !text::lex_lt(#[trigger] t[q].0@, #[trigger] t[p].0@)
}

proof fn lemma_tally_entry(t: Seq<(String, usize)>, i: int, key: Seq<char>)
    requires
        tally_distinct(t),
        0 <= i < t.len(),
        t[i].0@ == key,
    ensures
        tally_count(t, key) == t[i].1 as int,
    decreases t.len(),
{
    if i < t.len() - 1 {
        assert(t.last().0@ != key);
        assert(t.drop_last()[i] == t[i]);
        lemma_tally_entry(t.drop_last(), i, key);
    }
}

proof fn lemma_tally_insert(t: Seq<(String, usize)>, p: int, e: (String, usize), k: Seq<char>)
    requires
        tally_distinct(t),
        0 <= p <= t.len(),
        forall|j: int| 0 <= j < t.len() ==> #[trigger] t[j].0@ != e.0@,
    ensures
        tally_distinct(t.insert(p, e)),
        tally_count(t.insert(p, e), k) == tally_count(t, k) + if k == e.0@ {
            e.1 as int
        } else {
            0int
        },
{
    let u = t.insert(p, e);
    assert forall|x: int, y: int| 0 <= x < y < u.len() implies #[trigger] u[x].0@ != #[trigger] u[y].0@ by {
        if x < p {
            assert(u[x] == t[x]);
        } else if x > p {
            assert(u[x] == t[x - 1]);
        }
        if y < p {
            assert(u[y] == t[y]);
        } else if y > p {
            assert(u[y] == t[y - 1]);
        }
    }
    if k == e.0@ {
        assert(u[p] == e);
        lemma_tally_entry(u, p, k);
        lemma_tally_absent(t, k);
    } else if exists|j: int| 0 <= j < t.len() && #[trigger] t[j].0@ == k {
        let j = choose|j: int| 0 <= j < t.len() && #[trigger] t[j].0@ == k;
        lemma_tally_entry(t, j, k);
        if j < p {
            assert(u[j] == t[j]);
            lemma_tally_entry(u, j, k);
        } else {
            assert(u[j + 1] == t[j]);
            lemma_tally_entry(u, j + 1, k);
        }
    } else {
        lemma_tally_absent(t, k);
        assert forall|j: int| 0 <= j < u.len() implies #[trigger] u[j].0@ != k by {
            if j < p {
                assert(u[j] == t[j]);
            } else if j > p {
                assert(u[j] == t[j - 1]);
            }
        }
        lemma_tally_absent(u, k);
    }
}

proof fn lemma_tally_update(t: Seq<(String, usize)>, i: int, c: usize, key: Seq<char>)
    requires
        tally_distinct(t),
        0 <= i < t.len(),
    ensures
        tally_count(t.update(i, (t[i].0, c)), key) == if t[i].0@ == key {
            c as int
        } else {
            tally_count(t, key)
        },
    decreases t.len(),
{
    let u = t.update(i, (t[i].0, c));
    if i == t.len() - 1 {
        if t[i].0@ != key {
            assert(u.drop_last() =~= t.drop_last());
        }
    } else {
        assert(u.drop_last() =~= t.drop_last().update(i, (t[i].0, c)));
        assert(u.last() == t.last());
        if t.last().0@ == key {
            assert(t[i].0@ != t.last().0@);
        } else {
            lemma_tally_update(t.drop_last(), i, c, key);
        }
    }
}

proof fn lemma_tally_absent(t: Seq<(String, usize)>, key: Seq<char>)
    requires
        forall|j: int| 0 <= j < t.len() ==> #[trigger] t[j].0@ != key,
    ensures
        tally_count(t, key) == 0,
    decreases t.len(),
{
    if t.len() > 0 {
        lemma_tally_absent(t.drop_last(), key);
    }
}

/// Add one use of `key` to the tally.
pub fn bump_tally(tally: &mut Vec<(String, usize)>, key: &String)
    requires
        tally_distinct(old(tally)@),
        tally_count(old(tally)@, key@) < usize::MAX,
    ensures
        tally_distinct(final(tally)@),
        tally_sorted(old(tally)@) ==> tally_sorted(final(tally)@),
        forall|k: Seq<char>| #[trigger] tally_count(final(tally)@, k) == tally_count(old(tally)@, k)
            + if k == key@ {
            1int
        } else {
            0int
        },
{
    let ghost t0 = tally@;
    let mut i: usize = 0;
    let mut found = false;
    while i < tally.len() && !found
        invariant
            i <= tally@.len(),
            tally@ == t0,
            found ==> i < t0.len() && t0[i as int].0@ == key@,
            !found ==> forall|j: int| 0 <= j < i ==> #[trigger] t0[j].0@ != key@,
        decreases tally@.len() - i, if found { 0int } else { 1int },
    {
        if str_eq(tally[i].0.as_str(), key.as_str()) {
            found = true;
        } else {
            i = i + 1;
        }
    }
    if found {
        let c = tally[i].1;
        proof {
            assert(t0.update(i as int, (t0[i as int].0, c)) =~= t0);
            lemma_tally_update(t0, i as int, c, key@);
        }
        let name = tally[i].0.clone();
        tally.set(i, (name, c + 1));
        proof {
            assert(tally@ == t0.update(i as int, (t0[i as int].0, (c + 1) as usize)));
            assert forall|k: Seq<char>| #[trigger] tally_count(tally@, k) == tally_count(t0, k) + if k
                == key@ {
                1int
            } else {
                0int
            } by {
                lemma_tally_update(t0, i as int, (c + 1) as usize, k);
                lemma_tally_update(t0, i as int, c, k);
            }
            assert forall|x: int, y: int| 0 <= x < y < tally@.len() implies #[trigger] tally@[x].0@
                != #[trigger] tally@[y].0@ by {
                assert(tally@[x].0 == t0[x].0);
                assert(tally@[y].0 == t0[y].0);
            }
        }
    } else {
        proof {
            lemma_tally_absent(t0, key@);
        }
        let kc = chars_of(key.as_str());
        let mut p: usize = 0;
        while p < tally.len() && !lex_lt_exec(&kc, &chars_of(tally[p].0.as_str()))
            invariant
                tally@ == t0,
                kc@ == key@,
                p <= t0.len(),
                forall|q: int| 0 <= q < p ==> !text::lex_lt(key@, #[trigger] t0[q].0@),
            decreases t0.len() - p,
        {
            p = p + 1;
        }
        let e = (key.clone(), 1usize);
        tally.insert(p, e);
        proof {
            assert(tally@ == t0.insert(p as int, e));
            assert forall|k: Seq<char>| #[trigger] tally_count(tally@, k) == tally_count(t0, k) + if k
                == key@ {
                1int
            } else {
                0int
            } by {
                lemma_tally_insert(t0, p as int, e, k);
            }
            lemma_tally_insert(t0, p as int, e, key@);
            if tally_sorted(t0) {
                let t = tally@;
                assert forall|a: int, b: int| 0 <= a < b < t.len() implies !text::lex_lt(
                    #[trigger] t[b].0@,
                    #[trigger] t[a].0@,
                ) by {
                    if b < p {
                        assert(t[b] == t0[b] && t[a] == t0[a]);
                    } else if b == p {
                        assert(t[a] == t0[a]);
                        assert(!text::lex_lt(key@, t0[a].0@));
                        text::law_lex_order_strict_total(key@, t0[a].0@);
                    } else {
                        assert(t[b] == t0[b - 1]);
                        if a < p {
                            assert(t[a] == t0[a]);
                        } else if a == p {
                            assert(text::lex_lt(key@, t0[p as int].0@));
                            if text::lex_lt(t0[b - 1].0@, key@) {
                                text::law_lex_order_transitive(t0[b - 1].0@, key@, t0[p as int].0@);
                                text::law_lex_order_strict_total(t0[p as int].0@, t0[p as int].0@);
                            }
                        } else {
                            assert(t[a] == t0[a - 1]);
                        }
                    }
                }
            }
        }
    }
}

/// Number of occurrences of `key` in `ps`.
pub open spec fn occurrences(ps: Seq<Seq<char>>, key: Seq<char>) -> int
    decreases ps.len(),
{
    if ps.len() == 0 {
        0
    } else {
        occurrences(ps.drop_last(), key) + if ps.last() == key {
            1int
        } else {
            0int
        }
    }
}

proof fn lemma_occurrences_bound(ps: Seq<Seq<char>>, key: Seq<char>)
    ensures
        0 <= occurrences(ps, key) <= ps.len(),
    decreases ps.len(),
{
    if ps.len() > 0 {
        lemma_occurrences_bound(ps.drop_last(), key);
    }
}

fn member_from(s: &UnitSignals) -> (r: ClusterMember)
    ensures
        r == member_of(*s),
{
    let slug = match &s.slug {
        Some(x) => Some(x.clone()),
        None => None,
    };
    ClusterMember {
        id: s.id.clone(),
        slug,
        unit_type: s.unit_type.clone(),
        age_days: s.age_days,
        marks: s.marks,
        content_preview: s.content_preview.clone(),
        body_length: s.body_length,
        tag_count: s.tag_count,
    }
}

/// Build the report entry for one group of members (already in member
/// order): its patterns, action and rationale, and its id (the short form
/// of the first member's id). Returns `None` when the group is not
/// reported. Every pattern of a reported cluster is added to `by_pattern`.
pub fn build_cluster(
    members: &Vec<UnitSignals>,
    vec_near_dup: bool,
    overlap_near_dup: bool,
    vec_type_confused: bool,
    split_from: Option<String>,
    min_cluster_size: usize,
    by_pattern: &mut Vec<(String, usize)>,
) -> (r: Option<Cluster>)
    requires
        members@.len() > 0,
        members@.len() <= usize::MAX / 2,
        tally_distinct(old(by_pattern)@),
        forall|k: Seq<char>| #[trigger] tally_count(old(by_pattern)@, k) <= usize::MAX - 4,
    ensures
        tally_distinct(final(by_pattern)@),
        tally_sorted(old(by_pattern)@) ==> tally_sorted(final(by_pattern)@),
        match reported_patterns(
            members@,
            vec_near_dup,
            overlap_near_dup,
            vec_type_confused,
            split_from is Some,
            min_cluster_size as int,
        ) {
            None => r is None && final(by_pattern)@ == old(by_pattern)@,
            Some(ps) => r matches Some(c) && string_views(c.patterns@) == ps
                && (c.suggested_action@, c.reason@) == dominant_action(ps)
                && c.cluster_id@ == text::take_chars(members@[0].id@, 8)
                && c.members@ == members@.map_values(|m: UnitSignals| member_of(m))
                && c.split_from == split_from
                && forall|k: Seq<char>| #[trigger] tally_count(final(by_pattern)@, k)
                    == tally_count(old(by_pattern)@, k) + occurrences(ps, k),
        },
{
    let n = members.len();
    let mut patterns: Vec<String> = if n >= min_cluster_size {
        classify_cluster(members, vec_near_dup, overlap_near_dup, vec_type_confused)
    } else if n == 1 {
        classify_singleton(&members[0])
    } else {
        Vec::new()
    };
    if patterns.len() == 0 {
        if split_from.is_some() {
            patterns.push("shared-tag-bleed".to_owned());
            proof {
                assert(string_views(patterns@) =~= seq![shared_tag_bleed()]);
            }
        } else {
            return None;
        }
    }
    let ghost ps = string_views(patterns@);
    proof {
        assert(patterns@.len() <= 3);
    }
    let ghost t0 = by_pattern@;
    let mut i: usize = 0;
    while i < patterns.len()
        invariant
            i <= patterns@.len(),
            patterns@.len() <= 3,
            ps == string_views(patterns@),
            tally_distinct(by_pattern@),
            tally_sorted(t0) ==> tally_sorted(by_pattern@),
            forall|k: Seq<char>| #[trigger] tally_count(t0, k) <= usize::MAX - 4,
            forall|k: Seq<char>| #[trigger] tally_count(by_pattern@, k) == tally_count(t0, k)
                + occurrences(ps.take(i as int), k),
        decreases patterns@.len() - i,
    {
        proof {
            lemma_occurrences_bound(ps.take(i as int), patterns@[i as int]@);
        }
        bump_tally(by_pattern, &patterns[i]);
        proof {
            assert(ps.take(i + 1).drop_last() =~= ps.take(i as int));
        }
        i = i + 1;
    }
    proof {
        assert(ps.take(patterns@.len() as int) =~= ps);
    }
    let (suggested_action, reason) = suggested_action_for(&patterns);
    let cluster_id = cluster_id_for(members[0].id.as_str());
    let mut out_members: Vec<ClusterMember> = Vec::new();
    let mut j: usize = 0;
    while j < n
        invariant
            n == members@.len(),
            j <= n,
            out_members@ == members@.take(j as int).map_values(|m: UnitSignals| member_of(m)),
        decreases n - j,
    {
        let m = member_from(&members[j]);
        out_members.push(m);
        j = j + 1;
        proof {
            assert(out_members@ =~= members@.take(j as int).map_values(
                |m: UnitSignals| member_of(m),
            ));
        }
    }
    proof {
        assert(members@.take(n as int) =~= members@);
    }
    Some(
        Cluster {
            cluster_id,
            patterns,
            suggested_action,
            reason,
            members: out_members,
            split_from,
        },
    )
}

// ---------------------------------------------------------------------------
// Report order
// ---------------------------------------------------------------------------

/// `x` is reported strictly before `e`: more members, or as many members
/// and a smaller cluster id.
pub open spec fn cluster_before(x: Cluster, e: Cluster) -> bool {
    x.members@.len() > e.members@.len() || (x.members@.len() == e.members@.len()
        && text::lex_lt(x.cluster_id@, e.cluster_id@))
}

pub open spec fn cluster_insert_pos(s: Seq<Cluster>, x: Cluster, i: int) -> int
    decreases s.len() - i,
{
    if i < 0 || i >= s.len() {
        i
    } else if cluster_before(x, s[i]) {
        i
    } else {
        cluster_insert_pos(s, x, i + 1)
    }
}

/// Stable sort of clusters: larger first, ties by cluster id.
pub open spec fn sorted_clusters(s: Seq<Cluster>) -> Seq<Cluster>
    decreases s.len(),
{
    if s.len() == 0 {
        Seq::empty()
    } else {
        let sorted = sorted_clusters(s.drop_last());
        sorted.insert(cluster_insert_pos(sorted, s.last(), 0), s.last())
    }
}

proof fn lemma_cluster_insert_pos_bounds(s: Seq<Cluster>, x: Cluster, i: int)
    requires
        0 <= i <= s.len(),
    ensures
        i <= cluster_insert_pos(s, x, i) <= s.len(),
    decreases s.len() - i,
{
    if i < s.len() && !cluster_before(x, s[i]) {
        lemma_cluster_insert_pos_bounds(s, x, i + 1);
    }
}

proof fn lemma_cluster_before_transitive(x: Cluster, y: Cluster, z: Cluster)
    requires
        cluster_before(x, y),
        cluster_before(y, z),
    ensures
        cluster_before(x, z),
{
    if x.members@.len() == y.members@.len() && y.members@.len() == z.members@.len() {
        text::law_lex_order_transitive(x.cluster_id@, y.cluster_id@, z.cluster_id@);
    }
}

proof fn lemma_cluster_insert_pos_props(s: Seq<Cluster>, x: Cluster, i: int)
    requires
        0 <= i <= s.len(),
        forall|q: int| 0 <= q < i ==> !cluster_before(x, #[trigger] s[q]),
    ensures
        i <= cluster_insert_pos(s, x, i) <= s.len(),
        forall|q: int| 0 <= q < cluster_insert_pos(s, x, i) ==> !cluster_before(x, #[trigger] s[q]),
        cluster_insert_pos(s, x, i) < s.len() ==> cluster_before(x, s[cluster_insert_pos(s, x, i)]),
    decreases s.len() - i,
{
    if i < s.len() && !cluster_before(x, s[i]) {
        lemma_cluster_insert_pos_props(s, x, i + 1);
    }
}

/// No cluster of `s` ranks strictly before one that precedes it.
pub open spec fn clusters_ordered(s: Seq<Cluster>) -> bool {
    forall|p: int, q: int| 0 <= p < q < s.len() ==> !cluster_before(#[trigger] s[q], #[trigger] s[p])
}

/// Ordering clusters keeps every cluster, each as often as before, larger
/// clusters first and equal sizes by cluster id.
pub proof fn law_sorted_clusters_is_ordered_permutation(s: Seq<Cluster>)
    ensures
        sorted_clusters(s).to_multiset() == s.to_multiset(),
        clusters_ordered(sorted_clusters(s)),
    decreases s.len(),
{
    if s.len() == 0 {
        assert(sorted_clusters(s) =~= s);
    } else {
        let o = sorted_clusters(s.drop_last());
        let x = s.last();
        law_sorted_clusters_is_ordered_permutation(s.drop_last());
        lemma_cluster_insert_pos_props(o, x, 0);
        let p = cluster_insert_pos(o, x, 0);
        let t = o.insert(p, x);
        vstd::seq_lib::to_multiset_insert(o, p, x);
        assert(s =~= s.drop_last().push(x));
        vstd::seq_lib::to_multiset_build(s.drop_last(), x);
        assert forall|a: int, b: int| 0 <= a < b < t.len() implies !cluster_before(
            #[trigger] t[b],
            #[trigger] t[a],
        ) by {
            if b < p {
                assert(t[b] == o[b] && t[a] == o[a]);
            } else if b == p {
                assert(t[a] == o[a]);
            } else {
                assert(t[b] == o[b - 1]);
                if a < p {
                    assert(t[a] == o[a]);
                } else if a == p {
                    if cluster_before(o[b - 1], x) {
                        lemma_cluster_before_transitive(o[b - 1], x, o[p]);
                        text::law_lex_order_strict_total(o[p].cluster_id@, o[p].cluster_id@);
                    }
                } else {
                    assert(t[a] == o[a - 1]);
                }
            }
        }
    }
}

fn cluster_before_exec(x: &Cluster, e: &Cluster) -> (r: bool)
    ensures
        r == cluster_before(*x, *e),
{
    if x.members.len() > e.members.len() {
        true
    } else if x.members.len() == e.members.len() {
        let a = chars_of(x.cluster_id.as_str());
        let b = chars_of(e.cluster_id.as_str());
        lex_lt_exec(&a, &b)
    } else {
        false
    }
}

/// Clusters in report order: larger clusters first, ties broken by
/// cluster id.
pub fn order_clusters(clusters: Vec<Cluster>) -> (r: Vec<Cluster>)
    ensures
        r@ == sorted_clusters(clusters@),
        r@.to_multiset() == clusters@.to_multiset(),
        clusters_ordered(r@),
{
    proof {
        law_sorted_clusters_is_ordered_permutation(clusters@);
    }
    let ghost s0 = clusters@;
    assert(s0.len() == clusters.len());
    let mut rest = clusters;
    let mut sorted: Vec<Cluster> = Vec::new();
    let mut i: usize = 0;
    assert(sorted@ =~= sorted_clusters(s0.take(0)));
    while rest.len() > 0
        invariant
            i <= s0.len(),
            s0.len() <= usize::MAX,
            rest@ == s0.subrange(i as int, s0.len() as int),
            sorted@ == sorted_clusters(s0.take(i as int)),
        decreases rest@.len(),
    {
        let x = rest.remove(0);
        let ghost ss = sorted@;
        proof {
            lemma_cluster_insert_pos_bounds(ss, x, 0);
        }
        let mut p: usize = 0;
        while p < sorted.len() && !cluster_before_exec(&x, &sorted[p])
            invariant
                p <= sorted@.len(),
                ss == sorted@,
                cluster_insert_pos(ss, x, p as int) == cluster_insert_pos(ss, x, 0),
            decreases sorted@.len() - p,
        {
            p = p + 1;
        }
        sorted.insert(p, x);
        proof {
            let t = s0.take(i + 1);
            assert(t.drop_last() =~= s0.take(i as int));
            assert(t.last() == x);
        }
        i = i + 1;
        proof {
            assert(rest@ =~= s0.subrange(i as int, s0.len() as int));
        }
    }
    assert(s0.take(i as int) =~= s0);
    sorted
}

// ---------------------------------------------------------------------------
// Survey summary
// ---------------------------------------------------------------------------

/// A group of candidates to report as one cluster: the positions of its
/// members among the surveyed candidates, the caller's verdicts on the
/// group's average edge similarities (compared with the near-dup and
/// type-confusion cutoffs; those averages are floating point and stay with
/// the caller), and, for a sub-cluster carved out by a split, the positions
/// of the component it was carved from (as [`plan_clusters`] gives them).
#[derive(Debug, Clone)]
pub struct ClusterGroup {
    pub members: Vec<usize>,
    pub vec_near_dup: bool,
    pub overlap_near_dup: bool,
    pub vec_type_confused: bool,
    pub split_of: Option<Vec<usize>>,
}

/// A split group names a non-empty component of known candidates.
pub open spec fn parent_ok(signals: Seq<UnitSignals>, g: ClusterGroup) -> bool {
    match g.split_of {
        Some(p) => p@.len() > 0 && forall|k: int| 0 <= k < p@.len() ==> #[trigger] p@[k] < signals.len(),
        None => true,
    }
}

/// The id of the cluster a group was split from: the short id of the first
/// member, in member order, of the component it was carved from.
pub open spec fn parent_id(signals: Seq<UnitSignals>, g: ClusterGroup) -> Option<Seq<char>> {
    match g.split_of {
        Some(p) => Some(
            text::take_chars(sorted_members(p@.map_values(|i: usize| signals[i as int]))[0].id@, 8),
        ),
        None => None,
    }
}

/// The signals of a group's members, in the group's order.
pub open spec fn group_signals(signals: Seq<UnitSignals>, g: ClusterGroup) -> Seq<UnitSignals> {
    g.members@.map_values(|i: usize| signals[i as int])
}

/// The patterns group `g` is reported with (members in member order), or
/// `None` when it is not reported.
pub open spec fn group_patterns(signals: Seq<UnitSignals>, g: ClusterGroup, min: int) -> Option<Seq<Seq<char>>> {
    reported_patterns(
        sorted_members(group_signals(signals, g)),
        g.vec_near_dup,
        g.overlap_near_dup,
        g.vec_type_confused,
        g.split_of is Some,
        min,
    )
}

/// `c` is the cluster built from group `g`, as [`build_cluster`] makes it
/// of the group's members in member order.
pub open spec fn built_from(c: Cluster, signals: Seq<UnitSignals>, g: ClusterGroup, min: int) -> bool {
    match group_patterns(signals, g, min) {
        None => false,
        Some(ps) => {
            &&& string_views(c.patterns@) == ps
            &&& (c.suggested_action@, c.reason@) == dominant_action(ps)
            &&& c.cluster_id@ == text::take_chars(sorted_members(group_signals(signals, g))[0].id@, 8)
            &&& c.members@ == sorted_members(group_signals(signals, g)).map_values(
                |m: UnitSignals| member_of(m),
            )
            &&& match parent_id(signals, g) {
                Some(pid) => c.split_from matches Some(x) && x@ == pid,
                None => c.split_from is None,
            }
        },
    }
}

/// Some cluster of `cs` is built from group `g`.
pub open spec fn has_cluster_of(cs: Seq<Cluster>, signals: Seq<UnitSignals>, g: ClusterGroup, min: int) -> bool {
    exists|i: int| 0 <= i < cs.len() && #[trigger] built_from(cs[i], signals, g, min)
}

/// `c` is built from one of the groups.
pub open spec fn from_some_group(
    gs: Seq<ClusterGroup>,
    signals: Seq<UnitSignals>,
    min: int,
    c: Cluster,
) -> bool {
    exists|j: int| 0 <= j < gs.len() && #[trigger] built_from(c, signals, gs[j], min)
}

/// How many of the first `k` groups are reported.
pub open spec fn reported_count(gs: Seq<ClusterGroup>, signals: Seq<UnitSignals>, min: int, k: int) -> nat
    decreases k,
{
    if k <= 0 {
        0
    } else {
        reported_count(gs, signals, min, k - 1) + if group_patterns(signals, gs[k - 1], min) is Some {
            1nat
        } else {
            0nat
        }
    }
}

/// How often `key` is among the patterns of the reported groups among the
/// first `k`.
pub open spec fn pattern_uses(
    gs: Seq<ClusterGroup>,
    signals: Seq<UnitSignals>,
    min: int,
    k: int,
    key: Seq<char>,
) -> int
    decreases k,
{
    if k <= 0 {
        0
    } else {
        pattern_uses(gs, signals, min, k - 1, key) + match group_patterns(signals, gs[k - 1], min) {
            Some(ps) => occurrences(ps, key),
            None => 0,
        }
    }
}

proof fn lemma_reported_len(
    ms: Seq<UnitSignals>,
    vnd: bool,
    ond: bool,
    vtc: bool,
    split: bool,
    min: int,
)
    ensures
        reported_patterns(ms, vnd, ond, vtc, split, min) matches Some(ps) ==> ps.len() <= 3,
{
}

proof fn lemma_uses_bound(gs: Seq<ClusterGroup>, signals: Seq<UnitSignals>, min: int, k: int, key: Seq<char>)
    requires
        0 <= k <= gs.len(),
    ensures
        0 <= pattern_uses(gs, signals, min, k, key) <= 3 * k,
    decreases k,
{
    if k > 0 {
        lemma_uses_bound(gs, signals, min, k - 1, key);
        let g = gs[k - 1];
        lemma_reported_len(
            sorted_members(group_signals(signals, g)),
            g.vec_near_dup,
            g.overlap_near_dup,
            g.vec_type_confused,
            g.split_of is Some,
            min,
        );
        if let Some(ps) = group_patterns(signals, g, min) {
            lemma_occurrences_bound(ps, key);
        }
    }
}

fn copy_signals(s: &UnitSignals) -> (r: UnitSignals)
    ensures
        r == *s,
{
    let slug = match &s.slug {
        Some(x) => Some(x.clone()),
        None => None,
    };
    UnitSignals {
        id: s.id.clone(),
        slug,
        unit_type: s.unit_type.clone(),
        age_days: s.age_days,
        marks: s.marks,
        content_preview: s.content_preview.clone(),
        body_length: s.body_length,
        tag_count: s.tag_count,
        inbound_links: s.inbound_links,
        has_part_of_or_related_out: s.has_part_of_or_related_out,
    }
}

fn gather_signals(signals: &Vec<UnitSignals>, idx: &Vec<usize>) -> (r: Vec<UnitSignals>)
    requires
        forall|k: int| 0 <= k < idx@.len() ==> #[trigger] idx@[k] < signals@.len(),
    ensures
        r@ == idx@.map_values(|i: usize| signals@[i as int]),
{
    let mut out: Vec<UnitSignals> = Vec::new();
    let mut k: usize = 0;
    while k < idx.len()
        invariant
            k <= idx@.len(),
            forall|q: int| 0 <= q < idx@.len() ==> #[trigger] idx@[q] < signals@.len(),
            out@ == idx@.take(k as int).map_values(|i: usize| signals@[i as int]),
        decreases idx@.len() - k,
    {
        let s = copy_signals(&signals[idx[k]]);
        out.push(s);
        k = k + 1;
        assert(out@ =~= idx@.take(k as int).map_values(|i: usize| signals@[i as int]));
    }
    assert(idx@.take(idx@.len() as int) =~= idx@);
    out
}

/// The report of a survey of the candidates `signals` whose similarity
/// graph fell into `groups`: one cluster for each reported group (what
/// [`build_cluster`] makes of it with its members in member order), in
/// report order (more members first, then by cluster id), and the summary:
/// the number of candidates surveyed, the cluster count and how often each
/// pattern was reported, in ascending order of pattern name.
pub fn cluster_report(signals: &Vec<UnitSignals>, groups: Vec<ClusterGroup>, min_cluster_size: usize) -> (r: (
    ClusterSummary,
    Vec<Cluster>,
))
    requires
        groups@.len() <= usize::MAX / 4,
        forall|j: int|
            0 <= j < groups@.len() ==> (#[trigger] groups@[j]).members@.len() > 0 && groups@[j].members@.len()
                <= usize::MAX / 2,
        forall|j: int, k: int|
            0 <= j < groups@.len() && 0 <= k < groups@[j].members@.len() ==> #[trigger] groups@[j].members@[k]
                < signals@.len(),
        forall|j: int| 0 <= j < groups@.len() ==> parent_ok(signals@, #[trigger] groups@[j]),
    ensures
        r.0.total_units == signals@.len(),
        r.0.cluster_count == r.1@.len(),
        r.1@.len() == reported_count(groups@, signals@, min_cluster_size as int, groups@.len() as int),
        forall|i: int|
            0 <= i < r.1@.len() ==> from_some_group(groups@, signals@, min_cluster_size as int, #[trigger] r.1@[i]),
        forall|j: int|
            0 <= j < groups@.len() && group_patterns(signals@, #[trigger] groups@[j], min_cluster_size as int)
                is Some ==> has_cluster_of(r.1@, signals@, groups@[j], min_cluster_size as int),
        clusters_ordered(r.1@),
        tally_distinct(r.0.by_pattern@),
        tally_sorted(r.0.by_pattern@),
        forall|k: Seq<char>| #[trigger] tally_count(r.0.by_pattern@, k) == pattern_uses(
            groups@,
            signals@,
            min_cluster_size as int,
            groups@.len() as int,
            k,
        ),
{
    let ghost g0 = groups@;
    let ghost sg = signals@;
    let ghost min = min_cluster_size as int;
    assert(g0.len() == groups.len());
    let mut rest = groups;
    let mut built: Vec<Cluster> = Vec::new();
    let mut tally: Vec<(String, usize)> = Vec::new();
    let mut i: usize = 0;
    proof {
        assert forall|k: Seq<char>| #[trigger] tally_count(tally@, k) == pattern_uses(g0, sg, min, 0, k) by {}
    }
    while rest.len() > 0
        invariant
            g0.len() <= usize::MAX / 4,
            sg == signals@,
            forall|j: int|
                0 <= j < g0.len() ==> (#[trigger] g0[j]).members@.len() > 0 && g0[j].members@.len()
                    <= usize::MAX / 2,
            forall|j: int, k: int|
                0 <= j < g0.len() && 0 <= k < g0[j].members@.len() ==> #[trigger] g0[j].members@[k]
                    < sg.len(),
            forall|j: int| 0 <= j < g0.len() ==> parent_ok(sg, #[trigger] g0[j]),
            min == min_cluster_size as int,
            i <= g0.len(),
            rest@ == g0.subrange(i as int, g0.len() as int),
            built@.len() == reported_count(g0, sg, min, i as int),
            forall|q: int| 0 <= q < built@.len() ==> from_some_group(g0, sg, min, #[trigger] built@[q]),
            forall|j: int|
                0 <= j < i && group_patterns(sg, #[trigger] g0[j], min) is Some ==> has_cluster_of(
                    built@,
                    sg,
                    g0[j],
                    min,
                ),
            tally_distinct(tally@),
            tally_sorted(tally@),
            forall|k: Seq<char>| #[trigger] tally_count(tally@, k) == pattern_uses(g0, sg, min, i as int, k),
        decreases rest@.len(),
    {
        let g = rest.remove(0);
        assert(g == g0[i as int]);
        let ghost gg = g;
        proof {
            assert forall|k: int| 0 <= k < g.members@.len() implies #[trigger] g.members@[k] < signals@.len() by {
                assert(g0[i as int].members@[k] < sg.len());
            }
        }
        let sigs = gather_signals(signals, &g.members);
        let ms = sort_members(sigs);
        proof {
            ms@.to_multiset_ensures();
            sigs@.to_multiset_ensures();
            assert(sigs@ == group_signals(sg, gg));
            assert(ms@.len() == gg.members@.len());
            assert forall|k: Seq<char>| #[trigger] tally_count(tally@, k) <= usize::MAX - 4 by {
                lemma_uses_bound(g0, sg, min, i as int, k);
            }
        }
        let split_from: Option<String> = match &g.split_of {
            Some(p) => {
                proof {
                    assert(parent_ok(sg, g0[i as int]));
                }
                let psig = gather_signals(signals, p);
                let pms = sort_members(psig);
                proof {
                    pms@.to_multiset_ensures();
                    psig@.to_multiset_ensures();
                    assert(pms@.len() == p@.len());
                }
                Some(cluster_id_for(pms[0].id.as_str()))
            },
            None => None,
        };
        let c = build_cluster(
            &ms,
            g.vec_near_dup,
            g.overlap_near_dup,
            g.vec_type_confused,
            split_from,
            min_cluster_size,
            &mut tally,
        );
        let ghost before = built@;
        match c {
            Some(c) => {
                proof {
                    assert(built_from(c, sg, g0[i as int], min));
                }
                built.push(c);
            },
            None => {},
        }
        proof {
            assert forall|q: int| 0 <= q < built@.len() implies from_some_group(g0, sg, min, #[trigger] built@[q]) by {
                if q == built@.len() - 1 && group_patterns(sg, g0[i as int], min) is Some {
                    assert(built_from(built@[q], sg, g0[i as int], min));
                }
            }
            assert forall|j: int|
                0 <= j <= i && group_patterns(sg, #[trigger] g0[j], min) is Some implies has_cluster_of(
                built@,
                sg,
                g0[j],
                min,
            ) by {
                if j < i {
                    let q = choose|q: int| 0 <= q < before.len() && #[trigger] built_from(before[q], sg, g0[j], min);
                    assert(built@[q] == before[q]);
                } else {
                    assert(built_from(built@[built@.len() - 1], sg, g0[j], min));
                }
            }
        }
        i = i + 1;
        assert(rest@ =~= g0.subrange(i as int, g0.len() as int));
    }
    let ghost b = built@;
    let clusters = order_clusters(built);
    proof {
        clusters@.to_multiset_ensures();
        b.to_multiset_ensures();
        assert forall|q: int| 0 <= q < clusters@.len() implies from_some_group(g0, sg, min, #[trigger] clusters@[q]) by {
            let x = clusters@[q];
            assert(clusters@.contains(x));
            assert(clusters@.to_multiset().count(x) > 0);
            assert(b.to_multiset().count(x) > 0);
            assert(b.contains(x));
            let j = choose|j: int| 0 <= j < b.len() && b[j] == x;
            assert(from_some_group(g0, sg, min, b[j]));
        }
        assert forall|j: int|
            0 <= j < g0.len() && group_patterns(sg, #[trigger] g0[j], min) is Some implies has_cluster_of(
            clusters@,
            sg,
            g0[j],
            min,
        ) by {
            let q = choose|q: int| 0 <= q < b.len() && #[trigger] built_from(b[q], sg, g0[j], min);
            let x = b[q];
            assert(b.contains(x));
            assert(b.to_multiset().count(x) > 0);
            assert(clusters@.to_multiset().count(x) > 0);
            assert(clusters@.contains(x));
            let p = choose|p: int| 0 <= p < clusters@.len() && clusters@[p] == x;
            assert(built_from(clusters@[p], sg, g0[j], min));
        }
    }
    let summary = ClusterSummary { total_units: signals.len(), cluster_count: clusters.len(), by_pattern: tally };
    (summary, clusters)
}

// ---------------------------------------------------------------------------
// Survey plan: components and the split decision
// ---------------------------------------------------------------------------

/// A group of the survey plan: the candidate indices of its members
/// (ascending), and, for a sub-cluster carved out of an oversized component
/// by a split, the candidate indices of that component.
#[derive(Debug, Clone)]
pub struct PlannedGroup {
    pub members: Vec<usize>,
    pub split_of: Option<Vec<usize>>,
}

pub open spec fn planned_view(p: PlannedGroup) -> (Seq<usize>, Option<Seq<usize>>) {
    (
        p.members@,
        match p.split_of {
            Some(v) => Some(v@),
            None => None,
        },
    )
}

/// A component is split when splitting is on (`max > 0`), it has more than
/// `max` members, and more than one.
pub open spec fn oversized(len: int, max: int) -> bool {
    max > 0 && len > max && len > 1
}

/// Component `g` of the candidates `0..n` under the edges.
pub open spec fn component_of(n: nat, es: Seq<Edge>, g: int) -> Seq<usize> {
    let cr = component_roots(n, es);
    let kr = partition::kept_roots(cr, all_included(n), n as int);
    partition::class_members(cr, all_included(n), kr[g], n as int)
}

/// Number of components.
pub open spec fn component_count(n: nat, es: Seq<Edge>) -> int {
    partition::kept_roots(component_roots(n, es), all_included(n), n as int).len() as int
}

/// The surviving sub-components of component `g` when it is split (as
/// positions in the component's member list).
pub open spec fn split_subs(n: nat, es: Seq<Edge>, g: int, min: int) -> Seq<Seq<usize>> {
    let cr = component_roots(n, es);
    let kr = partition::kept_roots(cr, all_included(n), n as int);
    let comp = component_of(n, es, g);
    large_groups(
        split_classes(comp, es, cr, kr[g]),
        min,
        split_classes(comp, es, cr, kr[g]).len() as int,
    )
}

/// Member positions of a component turned back into candidate indices.
pub open spec fn to_candidates(comp: Seq<usize>, sub: Seq<usize>) -> Seq<usize> {
    sub.map_values(|p: usize| comp[p as int])
}

/// The plan for the first `k` components: an oversized component whose
/// split leaves two or more sub-components is replaced by them, each marked
/// with the component it was carved from; every other component is a group
/// of its own.
pub open spec fn plan_spec(n: nat, es: Seq<Edge>, max: int, min: int, k: int) -> Seq<
    (Seq<usize>, Option<Seq<usize>>),
>
    decreases k,
{
    if k <= 0 {
        Seq::empty()
    } else {
        let prev = plan_spec(n, es, max, min, k - 1);
        let comp = component_of(n, es, k - 1);
        let subs = split_subs(n, es, k - 1, min);
        if oversized(comp.len() as int, max) && subs.len() >= 2 {
            prev + subs.map_values(|s: Seq<usize>| (to_candidates(comp, s), Some(comp)))
        } else {
            prev.push((comp, None))
        }
    }
}

proof fn lemma_class_members_below(rv: Seq<usize>, inc: Seq<bool>, r: usize, k: int)
    ensures
        forall|i: int|
            0 <= i < partition::class_members(rv, inc, r, k).len() ==> #[trigger] partition::class_members(
                rv,
                inc,
                r,
                k,
            )[i] < k,
    decreases k,
{
    if k > 0 {
        lemma_class_members_below(rv, inc, r, k - 1);
        let prev = partition::class_members(rv, inc, r, k - 1);
        let cur = partition::class_members(rv, inc, r, k);
        assert forall|i: int| 0 <= i < cur.len() implies #[trigger] cur[i] < k by {
            if i < prev.len() {
                assert(cur[i] == prev[i]);
            }
        }
    }
}

proof fn lemma_large_groups_from(gs: Seq<Seq<usize>>, min: int, k: int)
    requires
        k <= gs.len(),
    ensures
        forall|i: int|
            0 <= i < large_groups(gs, min, k).len() ==> exists|j: int|
                0 <= j < k && #[trigger] large_groups(gs, min, k)[i] == gs[j],
    decreases k,
{
    if k > 0 {
        lemma_large_groups_from(gs, min, k - 1);
        let prev = large_groups(gs, min, k - 1);
        let cur = large_groups(gs, min, k);
        assert forall|i: int| 0 <= i < cur.len() implies exists|j: int|
            0 <= j < k && #[trigger] cur[i] == gs[j] by {
            if i < prev.len() {
                assert(cur[i] == prev[i]);
                let j = choose|j: int| 0 <= j < k - 1 && #[trigger] prev[i] == gs[j];
                assert(cur[i] == gs[j]);
            } else {
                assert(cur[i] == gs[k - 1]);
            }
        }
    }
}

/// Every position in a surviving sub-component lies inside the component.
proof fn lemma_subs_in_component(n: nat, es: Seq<Edge>, g: int, min: int)
    ensures
        forall|a: int, b: int|
            0 <= a < split_subs(n, es, g, min).len() && 0 <= b < split_subs(n, es, g, min)[a].len()
                ==> #[trigger] split_subs(n, es, g, min)[a][b] < component_of(n, es, g).len(),
{
    let cr = component_roots(n, es);
    let kr = partition::kept_roots(cr, all_included(n), n as int);
    let comp = component_of(n, es, g);
    let cls = split_classes(comp, es, cr, kr[g]);
    let rv = split_roots(comp, es, cr, kr[g]);
    let inc = split_flags(comp, es, cr, kr[g]);
    let skr = partition::kept_roots(rv, inc, comp.len() as int);
    lemma_large_groups_from(cls, min, cls.len() as int);
    assert forall|a: int, b: int|
        0 <= a < split_subs(n, es, g, min).len() && 0 <= b < split_subs(n, es, g, min)[a].len()
            implies #[trigger] split_subs(n, es, g, min)[a][b] < comp.len() by {
        let subs = split_subs(n, es, g, min);
        let j = choose|j: int| 0 <= j < cls.len() && #[trigger] subs[a] == cls[j];
        lemma_class_members_below(rv, inc, skr[j], comp.len() as int);
        assert(cls[j] == partition::class_members(rv, inc, skr[j], comp.len() as int));
    }
}

fn copy_indices(v: &Vec<usize>) -> (r: Vec<usize>)
    ensures
        r@ == v@,
{
    let mut out: Vec<usize> = Vec::new();
    let mut k: usize = 0;
    while k < v.len()
        invariant
            k <= v@.len(),
            out@ == v@.take(k as int),
        decreases v@.len() - k,
    {
        out.push(v[k]);
        k = k + 1;
        assert(out@ =~= v@.take(k as int));
    }
    assert(v@.take(v@.len() as int) =~= v@);
    out
}

/// The survey plan for candidates `0..n` under `edges`: the components of
/// the similarity graph in ascending order of their least member, each
/// oversized one (splitting on, more than `max_cluster_size` members, more
/// than one) re-clustered on its strong edges and replaced by the
/// sub-components that survive when there are two or more of them. The
/// caller adds its similarity verdicts to each group and hands them to
/// [`cluster_report`].
pub fn plan_clusters(n: usize, edges: &Vec<Edge>, max_cluster_size: usize, min_cluster_size: usize) -> (r: Vec<
    PlannedGroup,
>)
    requires
        forall|k: int|
            0 <= k < edges@.len() ==> (#[trigger] edges@[k]).from < n && edges@[k].to < n,
    ensures
        r@.map_values(|p: PlannedGroup| planned_view(p)) == plan_spec(
            n as nat,
            edges@,
            max_cluster_size as int,
            min_cluster_size as int,
            component_count(n as nat, edges@),
        ),
{
    let ghost es = edges@;
    let ghost max = max_cluster_size as int;
    let ghost min = min_cluster_size as int;
    let (cr, kr, comps) = connected_components(n, edges);
    let mut out: Vec<PlannedGroup> = Vec::new();
    let mut g: usize = 0;
    while g < comps.len()
        invariant
            forall|k: int| 0 <= k < es.len() ==> (#[trigger] es[k]).from < n && es[k].to < n,
            es == edges@,
            max == max_cluster_size as int,
            min == min_cluster_size as int,
            cr@ == component_roots(n as nat, es),
            kr@ == partition::kept_roots(component_roots(n as nat, es), all_included(n as nat), n as int),
            comps@.len() == kr@.len(),
            forall|h: int| 0 <= h < comps@.len() ==> #[trigger] comps@[h]@ == component_of(n as nat, es, h),
            g <= comps@.len(),
            out@.map_values(|p: PlannedGroup| planned_view(p)) == plan_spec(n as nat, es, max, min, g as int),
        decreases comps@.len() - g,
    {
        let comp = &comps[g];
        let ghost prev = out@.map_values(|p: PlannedGroup| planned_view(p));
        let ghost cv = component_of(n as nat, es, g as int);
        let mut done = false;
        if max_cluster_size > 0 && comp.len() > max_cluster_size && comp.len() > 1 {
            proof {
                assert forall|k: int| 0 <= k < es.len() implies (#[trigger] es[k]).from < cr@.len() && es[k].to
                    < cr@.len() by {}
            }
            let sp = split_oversized_cluster(comp, edges, &cr, kr[g], min_cluster_size);
            proof {
                assert(comp@ == cv);
                assert(sp.sub_components@.map_values(|x: Vec<usize>| x@) == split_subs(n as nat, es, g as int, min));
                lemma_subs_in_component(n as nat, es, g as int, min);
            }
            if sp.sub_components.len() >= 2 {
                let ghost subs = split_subs(n as nat, es, g as int, min);
                let mut q: usize = 0;
                while q < sp.sub_components.len()
                    invariant
                        q <= sp.sub_components@.len(),
                        sp.sub_components@.map_values(|x: Vec<usize>| x@) == subs,
                        comp@ == cv,
                        forall|a: int, b: int|
                            0 <= a < subs.len() && 0 <= b < subs[a].len() ==> #[trigger] subs[a][b] < cv.len(),
                        out@.map_values(|p: PlannedGroup| planned_view(p)) == prev + subs.take(q as int).map_values(
                            |s: Seq<usize>| (to_candidates(cv, s), Some(cv)),
                        ),
                    decreases sp.sub_components@.len() - q,
                {
                    let sub = &sp.sub_components[q];
                    proof {
                        assert(sub@ == subs[q as int]);
                    }
                    let mut members: Vec<usize> = Vec::new();
                    let mut t: usize = 0;
                    while t < sub.len()
                        invariant
                            t <= sub@.len(),
                            sub@ == subs[q as int],
                            comp@ == cv,
                            forall|b: int| 0 <= b < sub@.len() ==> #[trigger] sub@[b] < cv.len(),
                            members@ == to_candidates(cv, sub@.take(t as int)),
                        decreases sub@.len() - t,
                    {
                        proof {
                            assert(subs[q as int][t as int] < cv.len());
                        }
                        members.push(comp[sub[t]]);
                        t = t + 1;
                        assert(members@ =~= to_candidates(cv, sub@.take(t as int)));
                    }
                    assert(sub@.take(sub@.len() as int) =~= sub@);
                    let pg = PlannedGroup { members, split_of: Some(copy_indices(comp)) };
                    let ghost before = out@.map_values(|p: PlannedGroup| planned_view(p));
                    out.push(pg);
                    proof {
                        assert(out@.map_values(|p: PlannedGroup| planned_view(p)) =~= before.push(planned_view(pg)));
                        assert(subs.take(q + 1).map_values(|s: Seq<usize>| (to_candidates(cv, s), Some(cv)))
                            =~= subs.take(q as int).map_values(|s: Seq<usize>| (to_candidates(cv, s), Some(cv))).push(
                            (to_candidates(cv, subs[q as int]), Some(cv)),
                        ));
                    }
                    q = q + 1;
                }
                proof {
                    assert(subs.take(subs.len() as int) =~= subs);
                }
                done = true;
            }
        }
        if !done {
            let pg = PlannedGroup { members: copy_indices(comp), split_of: None };
            out.push(pg);
            proof {
                assert(out@.map_values(|p: PlannedGroup| planned_view(p)) =~= prev.push(planned_view(pg)));
            }
        }
        proof {
            assert(comp@ == cv);
        }
        g = g + 1;
    }
    out
}

} // verus!
