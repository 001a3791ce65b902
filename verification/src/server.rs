//! Decisions of the web front end, which answers every request by running
//! the command-line tool: the arguments it passes, the request checks, the
//! text it trims for display, and the bookkeeping of skipped clusters.
use vstd::prelude::*;
use crate::text;
use crate::text::{append_chars, chars_of, lit, str_eq, string_of, take_chars_exec, trim_chars};
use crate::similar;
use crate::lint;
use crate::lint::{decimal_chars};
use crate::cluster;
use crate::cluster::{bump_tally};
use crate::store;
use crate::store::path_join_exec;

verus! {

broadcast use vstd::string::group_string_axioms;

/// Characters of content shown in a search snippet.
pub const SNIPPET_CHARS: usize = 240;

/// Most members one consolidation action may touch.
pub const MAX_MEMBERS_PER_SUBMIT: usize = 50;

/// Query of the cluster listing.
#[derive(Debug, Clone, Default)]
pub struct ClustersQuery {
    pub refresh: bool,
    pub tag: Option<String>,
    pub type_: Option<String>,
}

/// Query of the search endpoint.
#[derive(Debug, Clone, Default)]
pub struct SearchParams {
    pub q: Option<String>,
    pub type_: Option<String>,
    pub include_archived: Option<String>,
}

/// Query of the scan endpoints.
#[derive(Debug, Clone, Copy)]
pub struct ScanQuery {
    pub stale_days: u32,
}

/// Body of a unit edit.
#[derive(Debug, Clone, Default)]
pub struct EditBody {
    pub content: Option<String>,
    pub type_: Option<String>,
    pub tags: Option<String>,
    pub source: Option<String>,
}

/// Body of a consolidation action.
#[derive(Debug, Clone, Default)]
pub struct ActionBody {
    pub cluster_id: String,
    pub action: String,
    pub canonical_id: Option<String>,
    pub member_ids: Vec<String>,
    pub new_type: Option<String>,
}

pub open spec fn strs(v: Seq<String>) -> Seq<Seq<char>> {
    v.map_values(|s: String| s@)
}

fn push_lit(v: &mut Vec<String>, s: &str)
    ensures
        strs(final(v)@) == strs(old(v)@).push(s@),
{
    let ghost before = strs(v@);
    v.push(s.to_owned());
    assert(strs(v@) =~= before.push(s@));
}

fn push_str(v: &mut Vec<String>, s: &String)
    ensures
        strs(final(v)@) == strs(old(v)@).push(s@),
{
    let ghost before = strs(v@);
    v.push(s.clone());
    assert(strs(v@) =~= before.push(s@));
}

// ---------------------------------------------------------------------------
// Clusters
// ---------------------------------------------------------------------------

/// The cached report may serve the request: no refresh asked and no
/// filter given.
pub fn use_cluster_cache(q: &ClustersQuery) -> (r: bool)
    ensures
        r == (!q.refresh && q.tag is None && q.type_ is None),
{
    !q.refresh && q.tag.is_none() && q.type_.is_none()
}

/// `cluster --json`, then `--tag T` (or `--all` without a tag), then
/// `--type T` when given.
pub open spec fn cluster_args_spec(q: ClustersQuery) -> Seq<Seq<char>> {
    let a = seq!["cluster"@, "--json"@];
    let b = match q.tag {
        Some(t) => a.push("--tag"@).push(t@),
        None => a.push("--all"@),
    };
    match q.type_ {
        Some(t) => b.push("--type"@).push(t@),
        None => b,
    }
}

/// Arguments of the survey run for a cluster listing.
pub fn cluster_args(q: &ClustersQuery) -> (r: Vec<String>)
    ensures
        strs(r@) == cluster_args_spec(*q),
{
    let mut args: Vec<String> = Vec::new();
    push_lit(&mut args, "cluster");
    push_lit(&mut args, "--json");
    match &q.tag {
        Some(t) => {
            push_lit(&mut args, "--tag");
            push_str(&mut args, t);
        },
        None => {
            push_lit(&mut args, "--all");
        },
    }
    match &q.type_ {
        Some(t) => {
            push_lit(&mut args, "--type");
            push_str(&mut args, t);
        },
        None => {},
    }
    args
}

/// Add a cluster id to the skipped list unless it is already there.
pub fn add_skipped_id(ids: &mut Vec<String>, id: &str)
    ensures
        strs(final(ids)@) == if strs(old(ids)@).contains(id@) {
            strs(old(ids)@)
        } else {
            strs(old(ids)@).push(id@)
        },
{
    if !lint::contains_str(ids, id) {
        proof {
            assert(lint::id_views(ids@) == strs(ids@));
        }
        push_lit(ids, id);
    } else {
        proof {
            assert(lint::id_views(ids@) == strs(ids@));
        }
    }
}

/// Clusters (id, patterns) of the first `k` that are not skipped.
pub open spec fn surviving(cs: Seq<(String, Vec<String>)>, skipped: Seq<Seq<char>>, k: int) -> Seq<
    (String, Vec<String>),
>
    decreases k,
{
    if k <= 0 {
        Seq::empty()
    } else if skipped.contains(cs[k - 1].0@) {
        surviving(cs, skipped, k - 1)
    } else {
        surviving(cs, skipped, k - 1).push(cs[k - 1])
    }
}

/// Every pattern label of the first `k` clusters, in order.
pub open spec fn all_patterns(cs: Seq<(String, Vec<String>)>, k: int) -> Seq<Seq<char>>
    decreases k,
{
    if k <= 0 {
        Seq::empty()
    } else {
        all_patterns(cs, k - 1) + strs(cs[k - 1].1@)
    }
}

/// Drop skipped clusters from a report (clusters given as id and pattern
/// labels) and recount: the survivors in order, their number, and how
/// often each pattern occurs among them.
pub fn filter_skipped(clusters: Vec<(String, Vec<String>)>, skipped: &Vec<String>) -> (r: (
    Vec<(String, Vec<String>)>,
    usize,
    Vec<(String, usize)>,
))
    requires
        all_patterns(clusters@, clusters@.len() as int).len() <= usize::MAX,
    ensures
        r.0@ == surviving(clusters@, strs(skipped@), clusters@.len() as int),
        r.1 == r.0@.len(),
        cluster::tally_distinct(r.2@),
        forall|k: Seq<char>| #[trigger] cluster::tally_count(r.2@, k) == cluster::occurrences(
            all_patterns(r.0@, r.0@.len() as int),
            k,
        ),
{
    let ghost cs = clusters@;
    assert(cs.len() == clusters.len());
    let mut rest = clusters;
    let mut kept: Vec<(String, Vec<String>)> = Vec::new();
    let mut i: usize = 0;
    while rest.len() > 0
        invariant
            i <= cs.len(),
            cs.len() <= usize::MAX,
            rest@ == cs.subrange(i as int, cs.len() as int),
            kept@ == surviving(cs, strs(skipped@), i as int),
        decreases rest@.len(),
    {
        let c = rest.remove(0);
        proof {
            assert(c == cs[i as int]);
        }
        let skip = lint::contains_str(skipped, c.0.as_str());
        proof {
            assert(lint::id_views(skipped@) == strs(skipped@));
        }
        if !skip {
            kept.push(c);
        }
        i = i + 1;
        proof {
            assert(rest@ =~= cs.subrange(i as int, cs.len() as int));
        }
    }
    proof {
        lemma_surviving_patterns_le(cs, strs(skipped@), cs.len() as int);
    }
    let ghost ks = kept@;
    let mut tally: Vec<(String, usize)> = Vec::new();
    let mut g: usize = 0;
    proof {
        assert forall|k: Seq<char>| #[trigger] cluster::tally_count(tally@, k) == cluster::occurrences(
            all_patterns(ks, 0),
            k,
        ) by {}
    }
    while g < kept.len()
        invariant
            g <= ks.len(),
            kept@ == ks,
            all_patterns(ks, ks.len() as int).len() <= usize::MAX,
            cluster::tally_distinct(tally@),
            forall|k: Seq<char>| #[trigger] cluster::tally_count(tally@, k) == cluster::occurrences(
                all_patterns(ks, g as int),
                k,
            ),
        decreases ks.len() - g,
    {
        let pats = &kept[g].1;
        let ghost base = all_patterns(ks, g as int);
        let mut j: usize = 0;
        while j < pats.len()
            invariant
                j <= pats@.len(),
                pats@ == ks[g as int].1@,
                g < ks.len(),
                base == all_patterns(ks, g as int),
                all_patterns(ks, ks.len() as int).len() <= usize::MAX,
                cluster::tally_distinct(tally@),
                forall|k: Seq<char>| #[trigger] cluster::tally_count(tally@, k) == cluster::occurrences(
                    base + strs(pats@).take(j as int),
                    k,
                ),
            decreases pats@.len() - j,
        {
            proof {
                lemma_all_patterns_mono(ks, g as int + 1, ks.len() as int);
                assert(all_patterns(ks, g as int + 1) == base + strs(pats@));
                lemma_occ_le(base + strs(pats@).take(j as int), pats@[j as int]@);
                assert((base + strs(pats@).take(j as int)).len() < (base + strs(pats@)).len());
            }
            bump_tally(&mut tally, &pats[j]);
            proof {
                let prev = base + strs(pats@).take(j as int);
                let next = base + strs(pats@).take(j + 1);
                assert(next =~= prev.push(pats@[j as int]@));
                assert(next.drop_last() =~= prev);
            }
            j = j + 1;
        }
        proof {
            assert(strs(pats@).take(pats@.len() as int) =~= strs(pats@));
        }
        g = g + 1;
    }
    let n = kept.len();
    (kept, n, tally)
}

proof fn lemma_occ_le(s: Seq<Seq<char>>, k: Seq<char>)
    ensures
        cluster::occurrences(s, k) <= s.len(),
    decreases s.len(),
{
    if s.len() > 0 {
        lemma_occ_le(s.drop_last(), k);
    }
}

proof fn lemma_all_patterns_mono(cs: Seq<(String, Vec<String>)>, j: int, k: int)
    requires
        0 <= j <= k <= cs.len(),
    ensures
        all_patterns(cs, j).len() <= all_patterns(cs, k).len(),
    decreases k - j,
{
    if j < k {
        lemma_all_patterns_mono(cs, j, k - 1);
    }
}

proof fn lemma_surviving_patterns_le(cs: Seq<(String, Vec<String>)>, skipped: Seq<Seq<char>>, k: int)
    requires
        0 <= k <= cs.len(),
    ensures
        all_patterns(surviving(cs, skipped, k), surviving(cs, skipped, k).len() as int).len()
            <= all_patterns(cs, k).len(),
    decreases k,
{
    if k > 0 {
        lemma_surviving_patterns_le(cs, skipped, k - 1);
        let s0 = surviving(cs, skipped, k - 1);
        if !skipped.contains(cs[k - 1].0@) {
            let s1 = s0.push(cs[k - 1]);
            lemma_all_patterns_prefix(s1, s0, s0.len() as int);
        }
    }
}

proof fn lemma_all_patterns_prefix(a: Seq<(String, Vec<String>)>, b: Seq<(String, Vec<String>)>, k: int)
    requires
        0 <= k <= a.len(),
        k <= b.len(),
        forall|i: int| 0 <= i < k ==> a[i] == b[i],
    ensures
        all_patterns(a, k) == all_patterns(b, k),
    decreases k,
{
    if k > 0 {
        lemma_all_patterns_prefix(a, b, k - 1);
    }
}

// ---------------------------------------------------------------------------
// Consolidation actions
// ---------------------------------------------------------------------------

/// What a consolidation request asks for.
#[derive(Debug, Clone, PartialEq, Eq)]
pub enum ActionKind {
    /// Too many members: refused with this message.
    TooMany(String),
    Archive,
    Retype,
    /// Merging is not offered; answered with "not implemented".
    Merge,
    Skip,
    /// Unknown action: refused with this message.
    Unknown(String),
}

/// ASCII-lowercase form of a string.
pub open spec fn ascii_lowercase(s: Seq<char>) -> Seq<char> {
    s.map_values(|c: char| similar::ascii_lower(c))
}

fn ascii_lowercase_exec(s: &str) -> (r: Vec<char>)
    ensures
        r@ == ascii_lowercase(s@),
{
    let v = chars_of(s);
    let mut out: Vec<char> = Vec::new();
    let mut i: usize = 0;
    while i < v.len()
        invariant
            i <= v@.len(),
            v@ == s@,
            out@ == ascii_lowercase(s@).take(i as int),
        decreases v@.len() - i,
    {
        out.push(similar::ascii_lower_exec(v[i]));
        i = i + 1;
        assert(out@ =~= ascii_lowercase(s@).take(i as int));
    }
    assert(ascii_lowercase(s@).take(v@.len() as int) =~= ascii_lowercase(s@));
    out
}

pub open spec fn action_kind_spec(action: Seq<char>, members: nat) -> (int, Seq<char>) {
    if members > MAX_MEMBERS_PER_SUBMIT {
        (0, "member_ids count "@ + lint::decimal(members) + " exceeds cap 50"@)
    } else if action == "archive"@ {
        (1, Seq::empty())
    } else if action == "retype"@ {
        (2, Seq::empty())
    } else if action == "merge"@ {
        (3, Seq::empty())
    } else if action == "skip"@ {
        (4, Seq::empty())
    } else {
        (5, "unknown action: "@ + action)
    }
}

pub open spec fn kind_view(k: ActionKind) -> (int, Seq<char>) {
    match k {
        ActionKind::TooMany(m) => (0, m@),
        ActionKind::Archive => (1, Seq::empty()),
        ActionKind::Retype => (2, Seq::empty()),
        ActionKind::Merge => (3, Seq::empty()),
        ActionKind::Skip => (4, Seq::empty()),
        ActionKind::Unknown(m) => (5, m@),
    }
}

/// Classify a consolidation request by its member count and its action
/// name (compared in ASCII lowercase).
pub fn action_kind(body: &ActionBody) -> (r: ActionKind)
    ensures
        kind_view(r) == action_kind_spec(ascii_lowercase(body.action@), body.member_ids@.len()),
{
    let n = body.member_ids.len();
    let lc = ascii_lowercase_exec(body.action.as_str());
    if n > MAX_MEMBERS_PER_SUBMIT {
        let mut m = lit("member_ids count ");
        append_chars(&mut m, &decimal_chars(n));
        append_chars(&mut m, &lit(" exceeds cap 50"));
        return ActionKind::TooMany(string_of(m.as_slice()));
    }
    let a = string_of(lc.as_slice());
    if str_eq(a.as_str(), "archive") {
        ActionKind::Archive
    } else if str_eq(a.as_str(), "retype") {
        ActionKind::Retype
    } else if str_eq(a.as_str(), "merge") {
        ActionKind::Merge
    } else if str_eq(a.as_str(), "skip") {
        ActionKind::Skip
    } else {
        let mut m = lit("unknown action: ");
        append_chars(&mut m, &lc);
        ActionKind::Unknown(string_of(m.as_slice()))
    }
}

/// Members of the first `k` that are not the canonical unit.
pub open spec fn non_canonical(ms: Seq<String>, canonical: Seq<char>, k: int) -> Seq<Seq<char>>
    decreases k,
{
    if k <= 0 {
        Seq::empty()
    } else if ms[k - 1]@ == canonical {
        non_canonical(ms, canonical, k - 1)
    } else {
        non_canonical(ms, canonical, k - 1).push(ms[k - 1]@)
    }
}

/// The archive step's plan: refused without a canonical id or with an
/// empty one; otherwise the marker tag `merge-source-` plus the first 8
/// characters of the canonical id, and the members other than the
/// canonical, in order.
pub open spec fn archive_plan_spec(body: ActionBody) -> Result<(Seq<char>, Seq<Seq<char>>), Seq<char>> {
    match body.canonical_id {
        None => Err("archive action requires canonical_id"@),
        Some(c) => if c@.len() == 0 {
            Err("canonical_id must not be empty"@)
        } else {
            Ok(
                (
                    "merge-source-"@ + text::take_chars(c@, 8),
                    non_canonical(body.member_ids@, c@, body.member_ids@.len() as int),
                ),
            )
        },
    }
}

/// Plan the archive action (see [`archive_plan_spec`]).
pub fn archive_plan(body: &ActionBody) -> (r: Result<(String, Vec<String>), String>)
    ensures
        match archive_plan_spec(*body) {
            Ok((tag, ms)) => r matches Ok(x) && x.0@ == tag && strs(x.1@) == ms,
            Err(m) => r matches Err(e) && e@ == m,
        },
{
    let c = match &body.canonical_id {
        None => {
            return Err("archive action requires canonical_id".to_owned());
        },
        Some(c) => c,
    };
    let cv = chars_of(c.as_str());
    if cv.len() == 0 {
        return Err("canonical_id must not be empty".to_owned());
    }
    let mut tag = lit("merge-source-");
    append_chars(&mut tag, &take_chars_exec(&cv, 8));
    let mut ms: Vec<String> = Vec::new();
    let mut i: usize = 0;
    while i < body.member_ids.len()
        invariant
            i <= body.member_ids@.len(),
            body.canonical_id == Some(*c),
            strs(ms@) == non_canonical(body.member_ids@, c@, i as int),
        decreases body.member_ids@.len() - i,
    {
        if !str_eq(body.member_ids[i].as_str(), c.as_str()) {
            push_str(&mut ms, &body.member_ids[i]);
        }
        i = i + 1;
    }
    Ok((string_of(tag.as_slice()), ms))
}

/// The tag list written back to an archived member: its existing tags
/// (none when they could not be read) with the marker tag appended
/// unless present, joined with commas.
pub open spec fn merged_tags_spec(existing: Option<Seq<Seq<char>>>, tag: Seq<char>) -> Seq<char> {
    match existing {
        None => tag,
        Some(ts) => text::join(
            if ts.contains(tag) {
                ts
            } else {
                ts.push(tag)
            },
            seq![','],
        ),
    }
}

/// Tag list for an archived member (see [`merged_tags_spec`]).
pub fn merged_tags(existing: Option<Vec<String>>, tag: &str) -> (r: String)
    ensures
        r@ == merged_tags_spec(
            match existing {
                Some(v) => Some(strs(v@)),
                None => None,
            },
            tag@,
        ),
{
    match existing {
        None => tag.to_owned(),
        Some(mut ts) => {
            add_skipped_id(&mut ts, tag);
            let mut parts: Vec<Vec<char>> = Vec::new();
            let mut i: usize = 0;
            while i < ts.len()
                invariant
                    i <= ts@.len(),
                    parts@.len() == i,
                    forall|k: int| 0 <= k < i ==> #[trigger] parts@[k]@ == ts@[k]@,
                decreases ts@.len() - i,
            {
                parts.push(chars_of(ts[i].as_str()));
                i = i + 1;
            }
            assert(text::views(parts@) =~= strs(ts@));
            let comma: Vec<char> = vec![','];
            assert(comma@ =~= seq![',']);
            string_of(text::join_exec(&parts, &comma).as_slice())
        },
    }
}

/// The retype step's check: a new type must be given and not be empty.
pub fn retype_target(body: &ActionBody) -> (r: Result<String, String>)
    ensures
        match body.new_type {
            None => r matches Err(e) && e@ == "retype action requires new_type"@,
            Some(t) => if t@.len() == 0 {
                r matches Err(e) && e@ == "new_type must not be empty"@
            } else {
                r matches Ok(x) && x@ == t@
            },
        },
{
    match &body.new_type {
        None => Err("retype action requires new_type".to_owned()),
        Some(t) => {
            if chars_of(t.as_str()).len() == 0 {
                Err("new_type must not be empty".to_owned())
            } else {
                Ok(t.clone())
            }
        },
    }
}

// ---------------------------------------------------------------------------
// Search, scan and edit requests
// ---------------------------------------------------------------------------

/// A flag's text is true when, trimmed and ASCII-lowercased, it reads
/// `1`, `true`, `yes` or `on`.
pub open spec fn flag_true(s: Option<Seq<char>>) -> bool {
    match s {
        None => false,
        Some(v) => {
            let l = ascii_lowercase(text::trim(v));
            l == "1"@ || l == "true"@ || l == "yes"@ || l == "on"@
        },
    }
}

/// Read a boolean query flag.
pub fn parse_bool(s: &Option<String>) -> (r: bool)
    ensures
        r == flag_true(match s {
            Some(v) => Some(v@),
            None => None,
        }),
{
    match s {
        None => false,
        Some(v) => {
            let t = trim_chars(&chars_of(v.as_str()));
            let l = ascii_lowercase_exec(string_of(t.as_slice()).as_str());
            let ls = string_of(l.as_slice());
            str_eq(ls.as_str(), "1") || str_eq(ls.as_str(), "true") || str_eq(ls.as_str(), "yes")
                || str_eq(ls.as_str(), "on")
        },
    }
}

/// The first 240 characters, with `…` appended when there were more.
pub open spec fn snippet(s: Seq<char>) -> Seq<char> {
    if s.len() > SNIPPET_CHARS {
        s.take(SNIPPET_CHARS as int).push('…')
    } else {
        s
    }
}

/// Cut text for a search snippet.
pub fn truncate(s: &str) -> (r: String)
    ensures
        r@ == snippet(s@),
{
    let v = chars_of(s);
    let mut head = take_chars_exec(&v, SNIPPET_CHARS);
    if v.len() > SNIPPET_CHARS {
        head.push('…');
    }
    string_of(head.as_slice())
}

/// The default staleness window of the scan endpoints, in days.
pub fn default_stale_days() -> (r: u32)
    ensures
        r == 30,
{
    30
}

/// `scan --cat CAT`, with `--stale-days N` for the `stale` category (and
/// for `counts`, which always takes it).
pub open spec fn scan_args_spec(cat: Seq<char>, days: nat) -> Seq<Seq<char>> {
    let a = seq!["scan"@, "--cat"@, cat];
    if cat == "stale"@ || cat == "counts"@ {
        a.push("--stale-days"@).push(lint::decimal(days))
    } else {
        a
    }
}

/// Arguments of a scan request.
pub fn scan_args(cat: &str, q: ScanQuery) -> (r: Vec<String>)
    ensures
        strs(r@) == scan_args_spec(cat@, q.stale_days as nat),
{
    let mut args: Vec<String> = Vec::new();
    push_lit(&mut args, "scan");
    push_lit(&mut args, "--cat");
    push_lit(&mut args, cat);
    if str_eq(cat, "stale") || str_eq(cat, "counts") {
        push_lit(&mut args, "--stale-days");
        let d = string_of(decimal_chars(q.stale_days as usize).as_slice());
        push_str(&mut args, &d);
    }
    args
}

/// `edit ID --json` with the given fields (an empty type counts as not
/// given); refused when no field is given.
pub open spec fn edit_args_spec(id: Seq<char>, b: EditBody) -> Option<Seq<Seq<char>>> {
    let a = seq!["edit"@, id, "--json"@];
    let a1 = match b.content {
        Some(c) => a.push("--content"@).push(c@),
        None => a,
    };
    let a2 = match b.type_ {
        Some(t) => if t@.len() > 0 {
            a1.push("--type"@).push(t@)
        } else {
            a1
        },
        None => a1,
    };
    let a3 = match b.tags {
        Some(t) => a2.push("--tags"@).push(t@),
        None => a2,
    };
    let a4 = match b.source {
        Some(s) => a3.push("--source"@).push(s@),
        None => a3,
    };
    if a4.len() > 3 {
        Some(a4)
    } else {
        None
    }
}

/// Arguments of a unit edit, or the refusal message.
pub fn edit_args(id: &str, body: &EditBody) -> (r: Result<Vec<String>, String>)
    ensures
        match edit_args_spec(id@, *body) {
            Some(a) => r matches Ok(v) && strs(v@) == a,
            None => r matches Err(e) && e@ == "edit body must set at least one of: content, type, tags, source"@,
        },
{
    let mut args: Vec<String> = Vec::new();
    push_lit(&mut args, "edit");
    push_lit(&mut args, id);
    push_lit(&mut args, "--json");
    let ghost a = seq!["edit"@, id@, "--json"@];
    assert(strs(args@) =~= a);
    match &body.content {
        Some(c) => {
            push_lit(&mut args, "--content");
            push_str(&mut args, c);
        },
        None => {},
    }
    let ghost a1 = match &body.content {
        Some(c) => a.push("--content"@).push(c@),
        None => a,
    };
    assert(strs(args@) == a1);
    match &body.type_ {
        Some(t) => {
            if chars_of(t.as_str()).len() > 0 {
                push_lit(&mut args, "--type");
                push_str(&mut args, t);
            }
        },
        None => {},
    }
    let ghost a2 = match &body.type_ {
        Some(t) => if t@.len() > 0 {
            a1.push("--type"@).push(t@)
        } else {
            a1
        },
        None => a1,
    };
    assert(strs(args@) == a2);
    match &body.tags {
        Some(t) => {
            push_lit(&mut args, "--tags");
            push_str(&mut args, t);
        },
        None => {},
    }
    let ghost a3 = match &body.tags {
        Some(t) => a2.push("--tags"@).push(t@),
        None => a2,
    };
    assert(strs(args@) == a3);
    match &body.source {
        Some(x) => {
            push_lit(&mut args, "--source");
            push_str(&mut args, x);
        },
        None => {},
    }
    let ghost a4 = match &body.source {
        Some(x) => a3.push("--source"@).push(x@),
        None => a3,
    };
    assert(strs(args@) == a4);
    assert(strs(args@).len() == args@.len());
    if args.len() > 3 {
        Ok(args)
    } else {
        Err("edit body must set at least one of: content, type, tags, source".to_owned())
    }
}

/// How a search request is answered: the list view when the trimmed
/// query is empty, else a question (falling back to a plain search).
#[derive(Debug, Clone)]
pub enum SearchPlan {
    List(Vec<String>),
    Ask { query: String, ask: Vec<String>, search: Vec<String> },
}

/// `[--type T] [--include-archived]` appended to `base`.
pub open spec fn with_filters(base: Seq<Seq<char>>, ty: Option<Seq<char>>, archived: bool) -> Seq<Seq<char>> {
    let a = match ty {
        Some(t) => base.push("--type"@).push(t),
        None => base,
    };
    if archived {
        a.push("--include-archived"@)
    } else {
        a
    }
}

/// The search plan for a request (see [`SearchPlan`]); an empty type
/// filter counts as none.
pub open spec fn search_plan_spec(p: SearchParams) -> (bool, Seq<char>, Seq<Seq<char>>, Seq<Seq<char>>) {
    let q = text::trim(match p.q {
        Some(q) => q@,
        None => Seq::empty(),
    });
    let ty = match p.type_ {
        Some(t) => if t@.len() > 0 {
            Some(t@)
        } else {
            None
        },
        None => None,
    };
    let arch = flag_true(match p.include_archived {
        Some(v) => Some(v@),
        None => None,
    });
    if q.len() == 0 {
        (true, q, with_filters(seq!["list"@, "--json"@], ty, arch), Seq::empty())
    } else {
        (
            false,
            q,
            with_filters(seq!["ask"@, q, "--json"@], ty, arch),
            with_filters(seq!["search"@, q, "--json"@], ty, arch),
        )
    }
}

pub open spec fn plan_view(s: SearchPlan) -> (bool, Seq<char>, Seq<Seq<char>>, Seq<Seq<char>>) {
    match s {
        SearchPlan::List(a) => (true, Seq::empty(), strs(a@), Seq::empty()),
        SearchPlan::Ask { query, ask, search } => (false, query@, strs(ask@), strs(search@)),
    }
}

fn add_filters(args: &mut Vec<String>, ty: &Option<String>, archived: bool)
    requires
        ty matches Some(t) ==> t@.len() > 0,
    ensures
        strs(final(args)@) == with_filters(
            strs(old(args)@),
            match ty {
                Some(t) => Some(t@),
                None => None,
            },
            archived,
        ),
{
    if let Some(t) = ty {
        push_lit(args, "--type");
        push_str(args, t);
    }
    if archived {
        push_lit(args, "--include-archived");
    }
}

/// Plan a search request.
pub fn search_plan(p: &SearchParams) -> (r: SearchPlan)
    ensures
        ({
            let v = plan_view(r);
            let s = search_plan_spec(*p);
            v.0 == s.0 && v.2 == s.2 && v.3 == s.3 && (!s.0 ==> v.1 == s.1)
        }),
{
    let q = match &p.q {
        Some(q) => trim_chars(&chars_of(q.as_str())),
        None => Vec::new(),
    };
    let ty: Option<String> = match &p.type_ {
        Some(t) => if chars_of(t.as_str()).len() > 0 {
            Some(t.clone())
        } else {
            None
        },
        None => None,
    };
    let arch = parse_bool(&p.include_archived);
    if q.len() == 0 {
        let mut args: Vec<String> = Vec::new();
        push_lit(&mut args, "list");
        push_lit(&mut args, "--json");
        add_filters(&mut args, &ty, arch);
        SearchPlan::List(args)
    } else {
        let qs = string_of(q.as_slice());
        let mut ask: Vec<String> = Vec::new();
        push_lit(&mut ask, "ask");
        push_str(&mut ask, &qs);
        push_lit(&mut ask, "--json");
        add_filters(&mut ask, &ty, arch);
        let mut search: Vec<String> = Vec::new();
        push_lit(&mut search, "search");
        push_str(&mut search, &qs);
        push_lit(&mut search, "--json");
        add_filters(&mut search, &ty, arch);
        SearchPlan::Ask { query: qs, ask, search }
    }
}


// ---------------------------------------------------------------------------
// State files
// ---------------------------------------------------------------------------

fn joined_exec(base: &str, name: &str) -> (r: String)
    ensures
        r@ == store::path_join(base@, name@),
{
    string_of(path_join_exec(&chars_of(base), name).as_slice())
}

/// The front end's state directory: `.simaris-server` in the home
/// directory, or in the working directory when there is no home.
pub fn state_dir(home: Option<&str>) -> (r: String)
    ensures
        r@ == store::path_join(
            match home {
                Some(h) => h@,
                None => "."@,
            },
            ".simaris-server"@,
        ),
{
    match home {
        Some(h) => joined_exec(h, ".simaris-server"),
        None => joined_exec(".", ".simaris-server"),
    }
}

/// Cached cluster listing in the state directory.
pub fn cache_path(state_dir: &str) -> (r: String)
    ensures
        r@ == store::path_join(state_dir@, "clusters.cache.json"@),
{
    joined_exec(state_dir, "clusters.cache.json")
}

/// List of skipped clusters in the state directory.
pub fn skipped_path(state_dir: &str) -> (r: String)
    ensures
        r@ == store::path_join(state_dir@, "skipped.json"@),
{
    joined_exec(state_dir, "skipped.json")
}

/// Audit log in the state directory.
pub fn audit_path(state_dir: &str) -> (r: String)
    ensures
        r@ == store::path_join(state_dir@, "audit.log"@),
{
    joined_exec(state_dir, "audit.log")
}

} // verus!
