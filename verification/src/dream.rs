//! Confidence decay over time: which timestamp counts as a unit's last
//! activity, and which decayed units are archived. The decay curve itself
//! is floating point and stays with the caller.
use vstd::prelude::*;
use crate::text;
use crate::text::{chars_of, lex_lt_exec};
use crate::display;
use crate::display::derive_headline;

verus! {

broadcast use vstd::string::group_string_axioms;

/// Most archive targets listed in a decay report.
pub const ARCHIVED_SAMPLE_CAP: usize = 10;

/// One unit that decay archives (or would archive).
#[derive(Debug, Clone)]
pub struct ArchivedSample {
    pub id: String,
    pub headline: String,
}

/// A unit whose confidence decays, with what the archive decision needs.
#[derive(Debug, Clone)]
pub struct DecayCandidate {
    pub id: String,
    pub content: String,
    /// The new confidence fell below the archive threshold.
    pub below_threshold: bool,
    /// Some unit is `part_of` this one.
    pub has_children: bool,
    /// The unit has a slug.
    pub has_slug: bool,
}

/// The later of the latest mark and the last update (timestamps in the
/// store's sortable text form).
pub fn activity_timestamp(last_mark: &str, updated: &str) -> (r: String)
    ensures
        r@ == if text::lex_lt(updated@, last_mark@) {
            last_mark@
        } else {
            updated@
        },
{
    if lex_lt_exec(&chars_of(updated), &chars_of(last_mark)) {
        last_mark.to_owned()
    } else {
        updated.to_owned()
    }
}

/// A decayed unit is archived when its confidence fell below the
/// threshold and nothing pins it: no `part_of` children and no slug.
pub open spec fn archives(c: DecayCandidate) -> bool {
    c.below_threshold && !c.has_children && !c.has_slug
}

/// Ids of the archived units among the first `k` candidates.
pub open spec fn archived_ids(cs: Seq<DecayCandidate>, k: int) -> Seq<Seq<char>>
    decreases k,
{
    if k <= 0 {
        Seq::empty()
    } else if archives(cs[k - 1]) {
        archived_ids(cs, k - 1).push(cs[k - 1].id@)
    } else {
        archived_ids(cs, k - 1)
    }
}

/// Candidate `j` carries `id` and is archived.
pub open spec fn archived_as(cs: Seq<DecayCandidate>, j: int, id: Seq<char>) -> bool {
    cs[j].id@ == id && cs[j].below_threshold && !cs[j].has_children && !cs[j].has_slug
}

/// Some candidate below `k` carries `id` and is archived.
pub open spec fn archived_source(cs: Seq<DecayCandidate>, k: int, id: Seq<char>) -> bool {
    exists|j: int| 0 <= j < k && #[trigger] archived_as(cs, j, id)
}

/// Decay never archives a pinned unit: every archived id belongs to a
/// candidate that fell below the threshold and has neither `part_of`
/// children nor a slug.
pub proof fn law_archive_spares_pinned_units(cs: Seq<DecayCandidate>, k: int)
    requires
        0 <= k <= cs.len(),
    ensures
        forall|i: int|
            0 <= i < archived_ids(cs, k).len() ==> archived_source(cs, k, #[trigger] archived_ids(cs, k)[i]),
    decreases k,
{
    if k > 0 {
        law_archive_spares_pinned_units(cs, k - 1);
        let prev = archived_ids(cs, k - 1);
        let cur = archived_ids(cs, k);
        if archives(cs[k - 1]) {
            assert(cur == prev.push(cs[k - 1].id@));
        } else {
            assert(cur == prev);
        }
        assert forall|i: int| 0 <= i < cur.len() implies archived_source(cs, k, #[trigger] cur[i]) by {
            if i < prev.len() {
                assert(cur[i] == prev[i]);
                assert(archived_source(cs, k - 1, prev[i]));
                let j = choose|j: int| 0 <= j < k - 1 && #[trigger] archived_as(cs, j, prev[i]);
                assert(archived_as(cs, j, cur[i]));
            } else {
                assert(archived_as(cs, k - 1, cur[i]));
            }
        }
    }
}

/// (id, headline) of the archived units among the first `k` candidates.
pub open spec fn archived_rows(cs: Seq<DecayCandidate>, k: int) -> Seq<(Seq<char>, Seq<char>)>
    decreases k,
{
    if k <= 0 {
        Seq::empty()
    } else if archives(cs[k - 1]) {
        archived_rows(cs, k - 1).push((cs[k - 1].id@, display::headline_spec(cs[k - 1].content@)))
    } else {
        archived_rows(cs, k - 1)
    }
}

pub open spec fn sample_view(s: ArchivedSample) -> (Seq<char>, Seq<char>) {
    (s.id@, s.headline@)
}

/// Decide the archiving step of a decay run: the ids to archive (in
/// order) and the report sample, which is the first ten of them with
/// their headlines.
pub fn archive_decisions(cands: &Vec<DecayCandidate>) -> (r: (Vec<String>, Vec<ArchivedSample>))
    ensures
        r.0@.map_values(|s: String| s@) == archived_ids(cands@, cands@.len() as int),
        r.1@.map_values(|s: ArchivedSample| sample_view(s)) == (if archived_rows(
            cands@,
            cands@.len() as int,
        ).len() <= ARCHIVED_SAMPLE_CAP {
            archived_rows(cands@, cands@.len() as int)
        } else {
            archived_rows(cands@, cands@.len() as int).take(ARCHIVED_SAMPLE_CAP as int)
        }),
{
    let mut ids: Vec<String> = Vec::new();
    let mut sample: Vec<ArchivedSample> = Vec::new();
    let mut i: usize = 0;
    while i < cands.len()
        invariant
            i <= cands@.len(),
            ids@.map_values(|s: String| s@) == archived_ids(cands@, i as int),
            archived_ids(cands@, i as int).len() == archived_rows(cands@, i as int).len(),
            sample@.map_values(|s: ArchivedSample| sample_view(s)) == (if archived_rows(
                cands@,
                i as int,
            ).len() <= ARCHIVED_SAMPLE_CAP {
                archived_rows(cands@, i as int)
            } else {
                archived_rows(cands@, i as int).take(ARCHIVED_SAMPLE_CAP as int)
            }),
        decreases cands@.len() - i,
    {
        let c = &cands[i];
        if c.below_threshold && !c.has_children && !c.has_slug {
            let ghost ib = ids@.map_values(|s: String| s@);
            let ghost sb = sample@.map_values(|s: ArchivedSample| sample_view(s));
            let ghost rows = archived_rows(cands@, i as int);
            ids.push(c.id.clone());
            assert(ids@.map_values(|s: String| s@) =~= ib.push(c.id@));
            if sample.len() < ARCHIVED_SAMPLE_CAP {
                let s = ArchivedSample { id: c.id.clone(), headline: derive_headline(c.content.as_str()) };
                sample.push(s);
                proof {
                    assert(sample@.map_values(|s: ArchivedSample| sample_view(s)) =~= sb.push(
                        sample_view(s),
                    ));
                    let rows2 = archived_rows(cands@, i + 1);
                    assert(rows2 == rows.push((c.id@, display::headline_spec(c.content@))));
                    if rows2.len() > ARCHIVED_SAMPLE_CAP {
                        assert(rows2.take(ARCHIVED_SAMPLE_CAP as int) =~= rows2);
                    }
                }
            } else {
                proof {
                    let rows2 = archived_rows(cands@, i + 1);
                    assert(rows2 == rows.push((c.id@, display::headline_spec(c.content@))));
                    if rows.len() <= ARCHIVED_SAMPLE_CAP {
                        assert(rows.len() == ARCHIVED_SAMPLE_CAP);
                        assert(rows2.take(ARCHIVED_SAMPLE_CAP as int) =~= rows);
                    } else {
                        assert(rows2.take(ARCHIVED_SAMPLE_CAP as int) =~= rows.take(
                            ARCHIVED_SAMPLE_CAP as int,
                        ));
                    }
                }
            }
        }
        i = i + 1;
    }
    (ids, sample)
}

} // verus!
