//! Dual-parent divergence: a unit that is `part_of` two or more live
//! parents whose last updates lie far apart. The store lists the parent
//! links (ordered by child, then by the parent's update time) and measures
//! the gap between two update times; this module picks the oldest and the
//! newest parent of each child and turns the measured spans into ranked
//! findings.
use vstd::prelude::*;
use crate::text;
use crate::text::{append_chars, chars_of, lex_lt_exec, lit, str_eq, string_of};
use crate::display;
use crate::display::derive_headline;
use crate::model::UnitCore;
use crate::rollup::DivergenceFinding;

verus! {

broadcast use vstd::string::group_string_axioms;

/// Whole days by which two parents' updates must differ, strictly, for
/// their child to be reported.
pub const DIVERGENCE_GAP_DAYS: u64 = 14;

/// One `part_of` link from `child` to a live `parent`, with the parent's
/// last update time.
#[derive(Debug, Clone)]
pub struct ParentRow {
    pub child: String,
    pub parent: String,
    pub updated: String,
}

/// A child with at least two parents: its first-listed (oldest) and
/// last-listed (newest) parent.
#[derive(Debug, Clone)]
pub struct ParentSpan {
    pub child: String,
    pub parent_a: String,
    pub parent_a_updated: String,
    pub parent_b: String,
    pub parent_b_updated: String,
}

pub open spec fn span_view(s: ParentSpan) -> (Seq<char>, Seq<char>, Seq<char>, Seq<char>, Seq<char>) {
    (s.child@, s.parent_a@, s.parent_a_updated@, s.parent_b@, s.parent_b_updated@)
}

pub open spec fn spans_view(v: Seq<ParentSpan>) -> Seq<
    (Seq<char>, Seq<char>, Seq<char>, Seq<char>, Seq<char>),
> {
    v.map_values(|s: ParentSpan| span_view(s))
}

/// Index of the last of the first `n` rows whose child is `c`, or -1.
pub open spec fn last_row_of(rows: Seq<ParentRow>, c: Seq<char>, n: int) -> int
    decreases n,
{
    if n <= 0 {
        -1
    } else if rows[n - 1].child@ == c {
        n - 1
    } else {
        last_row_of(rows, c, n - 1)
    }
}

/// Row `i` is the first row listed for its child.
pub open spec fn first_for_child(rows: Seq<ParentRow>, i: int) -> bool {
    forall|j: int| 0 <= j < i ==> #[trigger] rows[j].child@ != rows[i].child@
}

/// The spans of the children whose first row lies among the first `k`
/// rows, in the order those first rows are listed: each child with a
/// later row for it gets its first and its last row.
pub open spec fn spans_spec(rows: Seq<ParentRow>, k: int) -> Seq<
    (Seq<char>, Seq<char>, Seq<char>, Seq<char>, Seq<char>),
>
    decreases k,
{
    if k <= 0 {
        Seq::empty()
    } else {
        let prev = spans_spec(rows, k - 1);
        let i = k - 1;
        let l = last_row_of(rows, rows[i].child@, rows.len() as int);
        if first_for_child(rows, i) && l > i {
            prev.push(
                (rows[i].child@, rows[i].parent@, rows[i].updated@, rows[l].parent@, rows[l].updated@),
            )
        } else {
            prev
        }
    }
}

/// `s` is the child of some row before `k`.
pub open spec fn span_from_row(rows: Seq<ParentRow>, s: Seq<char>, k: int) -> bool {
    exists|j: int| 0 <= j < k && #[trigger] rows[j].child@ == s
}

proof fn lemma_spans_from_rows(rows: Seq<ParentRow>, k: int)
    requires
        0 <= k <= rows.len(),
    ensures
        forall|p: int|
            0 <= p < spans_spec(rows, k).len() ==> span_from_row(rows, (#[trigger] spans_spec(rows, k)[p]).0, k),
    decreases k,
{
    if k > 0 {
        lemma_spans_from_rows(rows, k - 1);
        let prev = spans_spec(rows, k - 1);
        let cur = spans_spec(rows, k);
        assert forall|p: int| 0 <= p < cur.len() implies span_from_row(rows, (#[trigger] cur[p]).0, k) by {
            if p < prev.len() {
                assert(cur[p] == prev[p]);
                let j = choose|j: int| 0 <= j < k - 1 && #[trigger] rows[j].child@ == prev[p].0;
                assert(rows[j].child@ == cur[p].0);
            } else {
                assert(rows[k - 1].child@ == cur[p].0);
            }
        }
    }
}

/// Each child is reported in at most one span: no two spans name the same
/// child.
pub proof fn law_spans_name_each_child_once(rows: Seq<ParentRow>)
    ensures
        forall|p: int, q: int|
            0 <= p < q < spans_spec(rows, rows.len() as int).len() ==> (#[trigger] spans_spec(
                rows,
                rows.len() as int,
            )[p]).0 != (#[trigger] spans_spec(rows, rows.len() as int)[q]).0,
{
    lemma_spans_distinct(rows, rows.len() as int);
}

proof fn lemma_spans_distinct(rows: Seq<ParentRow>, k: int)
    requires
        0 <= k <= rows.len(),
    ensures
        forall|p: int, q: int|
            0 <= p < q < spans_spec(rows, k).len() ==> (#[trigger] spans_spec(rows, k)[p]).0 != (
            #[trigger] spans_spec(rows, k)[q]).0,
    decreases k,
{
    if k > 0 {
        lemma_spans_distinct(rows, k - 1);
        lemma_spans_from_rows(rows, k - 1);
        let prev = spans_spec(rows, k - 1);
        let cur = spans_spec(rows, k);
        assert forall|p: int, q: int| 0 <= p < q < cur.len() implies (#[trigger] cur[p]).0 != (
        #[trigger] cur[q]).0 by {
            if q < prev.len() {
                assert(cur[p] == prev[p] && cur[q] == prev[q]);
            } else {
                assert(cur[p] == prev[p]);
                assert(first_for_child(rows, k - 1));
                assert(cur[q].0 == rows[k - 1].child@);
                assert(span_from_row(rows, prev[p].0, k - 1));
                let j = choose|j: int| 0 <= j < k - 1 && #[trigger] rows[j].child@ == prev[p].0;
                assert(rows[j].child@ != rows[k - 1].child@);
            }
        }
    }
}

fn seen_before(rows: &Vec<ParentRow>, i: usize) -> (r: bool)
    requires
        i < rows@.len(),
    ensures
        r == !first_for_child(rows@, i as int),
{
    let mut j: usize = 0;
    while j < i
        invariant
            i < rows@.len(),
            j <= i,
            forall|q: int| 0 <= q < j ==> #[trigger] rows@[q].child@ != rows@[i as int].child@,
        decreases i - j,
    {
        if str_eq(rows[j].child.as_str(), rows[i].child.as_str()) {
            return true;
        }
        j = j + 1;
    }
    false
}

fn last_row_exec(rows: &Vec<ParentRow>, c: &str) -> (r: Option<usize>)
    ensures
        match r {
            Some(j) => j as int == last_row_of(rows@, c@, rows@.len() as int) && j < rows@.len(),
            None => last_row_of(rows@, c@, rows@.len() as int) == -1,
        },
{
    let mut j: usize = rows.len();
    while j > 0
        invariant
            j <= rows@.len(),
            last_row_of(rows@, c@, rows@.len() as int) == last_row_of(rows@, c@, j as int),
        decreases j,
    {
        if str_eq(rows[j - 1].child.as_str(), c) {
            return Some(j - 1);
        }
        j = j - 1;
    }
    None
}

/// For each child with two or more parent rows, its first and its last
/// row, children in the order their first rows are listed. With rows
/// ordered by child and then by update time, these are the oldest and the
/// newest parent.
pub fn parent_spans(rows: &Vec<ParentRow>) -> (r: Vec<ParentSpan>)
    ensures
        spans_view(r@) == spans_spec(rows@, rows@.len() as int),
{
    let mut out: Vec<ParentSpan> = Vec::new();
    let mut i: usize = 0;
    while i < rows.len()
        invariant
            i <= rows@.len(),
            spans_view(out@) == spans_spec(rows@, i as int),
        decreases rows@.len() - i,
    {
        if !seen_before(rows, i) {
            let l = last_row_exec(rows, rows[i].child.as_str());
            match l {
                Some(l) => {
                    if l > i {
                        let s = ParentSpan {
                            child: rows[i].child.clone(),
                            parent_a: rows[i].parent.clone(),
                            parent_a_updated: rows[i].updated.clone(),
                            parent_b: rows[l].parent.clone(),
                            parent_b_updated: rows[l].updated.clone(),
                        };
                        let ghost prev = spans_view(out@);
                        out.push(s);
                        assert(spans_view(out@) =~= prev.push(span_view(s)));
                    }
                },
                None => {},
            }
        }
        i = i + 1;
    }
    out
}

// ---------------------------------------------------------------------------
// Findings
// ---------------------------------------------------------------------------

/// A span with the gap between its parents' update times as the store
/// measured it: whether it exceeds the threshold, the gap rounded to whole
/// days, and the gap as the report prints it.
#[derive(Debug, Clone)]
pub struct MeasuredSpan {
    pub span: ParentSpan,
    pub over_threshold: bool,
    pub gap_days: i64,
    pub gap_text: String,
}

pub struct DivergenceView {
    pub id: Seq<char>,
    pub headline: Seq<char>,
    pub unit_type: Seq<char>,
    pub parent_a_id: Seq<char>,
    pub parent_a_updated: Seq<char>,
    pub parent_b_id: Seq<char>,
    pub parent_b_updated: Seq<char>,
    pub gap_days: i64,
    pub reason: Seq<char>,
}

pub open spec fn finding_view(f: DivergenceFinding) -> DivergenceView {
    DivergenceView {
        id: f.id@,
        headline: f.headline@,
        unit_type: f.unit_type@,
        parent_a_id: f.parent_a_id@,
        parent_a_updated: f.parent_a_updated@,
        parent_b_id: f.parent_b_id@,
        parent_b_updated: f.parent_b_updated@,
        gap_days: f.gap_days,
        reason: f.reason@,
    }
}

pub open spec fn findings_view(v: Seq<DivergenceFinding>) -> Seq<DivergenceView> {
    v.map_values(|f: DivergenceFinding| finding_view(f))
}

/// The reason line of a finding.
pub open spec fn divergence_reason(gap_text: Seq<char>) -> Seq<char> {
    "parents differ by "@ + gap_text + " days (>14)"@
}

/// Index of the last of the first `n` units with id `id`, or -1.
pub open spec fn last_unit_of(units: Seq<UnitCore>, id: Seq<char>, n: int) -> int
    decreases n,
{
    if n <= 0 {
        -1
    } else if units[n - 1].id@ == id {
        n - 1
    } else {
        last_unit_of(units, id, n - 1)
    }
}

/// The finding for measured span `m` about unit `u`.
pub open spec fn finding_for(u: UnitCore, m: MeasuredSpan) -> DivergenceView {
    DivergenceView {
        id: m.span.child@,
        headline: display::headline_spec(u.content@),
        unit_type: u.unit_type@,
        parent_a_id: m.span.parent_a@,
        parent_a_updated: m.span.parent_a_updated@,
        parent_b_id: m.span.parent_b@,
        parent_b_updated: m.span.parent_b_updated@,
        gap_days: m.gap_days,
        reason: divergence_reason(m.gap_text@),
    }
}

/// Findings for the first `k` measured spans, in span order: those over
/// the threshold whose child is among the units (the last unit listed
/// with that id, as a map built from the list keeps it).
pub open spec fn selected_spec(units: Seq<UnitCore>, ms: Seq<MeasuredSpan>, k: int) -> Seq<
    DivergenceView,
>
    decreases k,
{
    if k <= 0 {
        Seq::empty()
    } else {
        let prev = selected_spec(units, ms, k - 1);
        let m = ms[k - 1];
        let u = last_unit_of(units, m.span.child@, units.len() as int);
        if m.over_threshold && u >= 0 {
            prev.push(finding_for(units[u], m))
        } else {
            prev
        }
    }
}

/// Report order: larger gap first, then ascending id.
pub open spec fn comes_before(x: DivergenceView, y: DivergenceView) -> bool {
    x.gap_days > y.gap_days || (x.gap_days == y.gap_days && text::lex_lt(x.id, y.id))
}

/// No finding is listed after one it comes before.
pub open spec fn report_ordered(s: Seq<DivergenceView>) -> bool {
    forall|p: int, q: int| 0 <= p < q < s.len() ==> !comes_before(#[trigger] s[q], #[trigger] s[p])
}

proof fn lemma_comes_before_strict(x: DivergenceView, y: DivergenceView, z: DivergenceView)
    ensures
        !comes_before(x, x),
        comes_before(x, y) && comes_before(y, z) ==> comes_before(x, z),
{
    text::law_lex_order_strict_total(x.id, x.id);
    if comes_before(x, y) && comes_before(y, z) && x.gap_days == z.gap_days {
        text::law_lex_order_transitive(x.id, y.id, z.id);
    }
}

fn last_unit_exec(units: &Vec<UnitCore>, id: &str) -> (r: Option<usize>)
    ensures
        match r {
            Some(j) => j as int == last_unit_of(units@, id@, units@.len() as int) && j < units@.len(),
            None => last_unit_of(units@, id@, units@.len() as int) == -1,
        },
{
    let mut j: usize = units.len();
    while j > 0
        invariant
            j <= units@.len(),
            last_unit_of(units@, id@, units@.len() as int) == last_unit_of(units@, id@, j as int),
        decreases j,
    {
        if str_eq(units[j - 1].id.as_str(), id) {
            return Some(j - 1);
        }
        j = j - 1;
    }
    None
}

fn reason_exec(gap_text: &str) -> (r: String)
    ensures
        r@ == divergence_reason(gap_text@),
{
    let mut v = lit("parents differ by ");
    append_chars(&mut v, &chars_of(gap_text));
    append_chars(&mut v, &lit(" days (>14)"));
    string_of(v.as_slice())
}

fn select_findings(units: &Vec<UnitCore>, measured: &Vec<MeasuredSpan>) -> (r: Vec<DivergenceFinding>)
    ensures
        findings_view(r@) == selected_spec(units@, measured@, measured@.len() as int),
{
    let mut out: Vec<DivergenceFinding> = Vec::new();
    let mut i: usize = 0;
    while i < measured.len()
        invariant
            i <= measured@.len(),
            findings_view(out@) == selected_spec(units@, measured@, i as int),
        decreases measured@.len() - i,
    {
        let m = &measured[i];
        if m.over_threshold {
            match last_unit_exec(units, m.span.child.as_str()) {
                Some(k) => {
                    let u = &units[k];
                    let f = DivergenceFinding {
                        id: m.span.child.clone(),
                        headline: derive_headline(u.content.as_str()),
                        unit_type: u.unit_type.clone(),
                        parent_a_id: m.span.parent_a.clone(),
                        parent_a_updated: m.span.parent_a_updated.clone(),
                        parent_b_id: m.span.parent_b.clone(),
                        parent_b_updated: m.span.parent_b_updated.clone(),
                        gap_days: m.gap_days,
                        reason: reason_exec(m.gap_text.as_str()),
                    };
                    let ghost prev = findings_view(out@);
                    out.push(f);
                    assert(findings_view(out@) =~= prev.push(finding_view(f)));
                },
                None => {},
            }
        }
        i = i + 1;
    }
    out
}

fn comes_before_exec(x: &DivergenceFinding, y: &DivergenceFinding) -> (r: bool)
    ensures
        r == comes_before(finding_view(*x), finding_view(*y)),
{
    if x.gap_days != y.gap_days {
        x.gap_days > y.gap_days
    } else {
        lex_lt_exec(&chars_of(x.id.as_str()), &chars_of(y.id.as_str()))
    }
}

/// The divergence findings of the measured spans: one for each span over
/// the threshold whose child is a listed unit, with the unit's headline
/// and type, ordered by larger gap first and then by id.
pub fn divergence_findings(units: &Vec<UnitCore>, measured: &Vec<MeasuredSpan>) -> (r: Vec<
    DivergenceFinding,
>)
    ensures
        findings_view(r@).to_multiset() == selected_spec(
            units@,
            measured@,
            measured@.len() as int,
        ).to_multiset(),
        report_ordered(findings_view(r@)),
{
    let sel = select_findings(units, measured);
    let ghost s0 = sel@;
    let mut rest = sel;
    let mut out: Vec<DivergenceFinding> = Vec::new();
    let mut i: usize = 0;
    assert(findings_view(s0.take(0)) =~= findings_view(out@));
    assert(s0.len() == rest.len());
    while rest.len() > 0
        invariant
            s0.len() <= usize::MAX,
            i <= s0.len(),
            rest@ == s0.subrange(i as int, s0.len() as int),
            findings_view(out@).to_multiset() == findings_view(s0.take(i as int)).to_multiset(),
            report_ordered(findings_view(out@)),
        decreases rest@.len(),
    {
        let x = rest.remove(0);
        assert(x == s0[i as int]);
        let ghost o = findings_view(out@);
        let mut p: usize = 0;
        while p < out.len() && !comes_before_exec(&x, &out[p])
            invariant
                findings_view(out@) == o,
                p <= o.len(),
                forall|q: int| 0 <= q < p ==> !comes_before(finding_view(x), #[trigger] o[q]),
            decreases o.len() - p,
        {
            p = p + 1;
        }
        out.insert(p, x);
        proof {
            let xv = finding_view(x);
            let t = findings_view(out@);
            assert(t =~= o.insert(p as int, xv));
            assert forall|a: int, b: int| 0 <= a < b < t.len() implies !comes_before(
                #[trigger] t[b],
                #[trigger] t[a],
            ) by {
                if b < p {
                    assert(t[b] == o[b] && t[a] == o[a]);
                } else if b == p {
                    assert(t[a] == o[a]);
                } else {
                    assert(t[b] == o[b - 1]);
                    if a < p {
                        assert(t[a] == o[a]);
                    } else if a == p {
                        assert(comes_before(xv, o[p as int]));
                        lemma_comes_before_strict(o[b - 1], xv, o[p as int]);
                        lemma_comes_before_strict(o[p as int], o[p as int], o[p as int]);
                    } else {
                        assert(t[a] == o[a - 1]);
                    }
                }
            }
            assert(findings_view(s0.take(i + 1)) =~= findings_view(s0.take(i as int)).push(xv));
            vstd::seq_lib::to_multiset_build(findings_view(s0.take(i as int)), xv);
            vstd::seq_lib::to_multiset_insert(o, p as int, xv);
        }
        i = i + 1;
        assert(rest@ =~= s0.subrange(i as int, s0.len() as int));
    }
    assert(s0.take(i as int) =~= s0);
    out
}

} // verus!
