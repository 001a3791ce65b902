//! Retrieval over the knowledge graph: the search query for a question,
//! the relevance-filter exchange with the language model (prompt out,
//! reply in), the answer records, and the sectioned primer of `prime`.
use vstd::prelude::*;
use crate::text;
use crate::text::{append_chars, chars_eq, chars_of, find_exec, lit, rfind_exec, starts_with_exec, ends_with_exec, string_of, take_chars_exec, trim_chars, lex_lt_exec};
use crate::fts;
use crate::fts::{or_query_exec, query_terms_exec};
use crate::lint::contains_str;
use crate::lint;

verus! {

broadcast use vstd::string::group_string_axioms;

/// A link from a gathered unit, with a preview of the unit at the other end.
#[derive(Debug, Clone)]
pub struct LinkInfo {
    pub unit_id: String,
    pub relationship: String,
    pub title: String,
}

/// A unit gathered for a question, with its links in both directions.
#[derive(Debug, Clone)]
pub struct ContextUnit {
    pub id: String,
    pub content: String,
    pub unit_type: String,
    pub tags: Vec<String>,
    pub source: String,
    pub links_to: Vec<LinkInfo>,
    pub links_from: Vec<LinkInfo>,
    pub is_direct_match: bool,
}

/// A unit in an answer, with the links that lead outside the answer.
#[derive(Debug, Clone)]
pub struct MatchedUnit {
    pub id: String,
    pub content: String,
    pub unit_type: String,
    pub tags: Vec<String>,
    pub source: String,
    pub is_direct_match: bool,
    pub links: Vec<LinkInfo>,
}

/// Diagnostics of one question.
#[derive(Debug, Clone)]
pub struct DebugTrace {
    pub fts_query: String,
    pub matches_per_query: Vec<(String, usize)>,
    pub total_gathered: usize,
    pub filter_kept: usize,
    pub filter_total: usize,
    pub filter_fallback: bool,
    pub units_in_result: usize,
}

/// The answer to a question.
#[derive(Debug, Clone)]
pub struct AskResult {
    pub query: String,
    pub units: Vec<MatchedUnit>,
    pub units_used: Vec<String>,
    pub response: Option<String>,
    pub debug: Option<DebugTrace>,
}

/// One unit of a primer: the full body, or (when `full` is false) only a
/// directory entry.
#[derive(Debug, Clone)]
pub struct PrimeUnit {
    pub id: String,
    pub content: String,
    pub tags: Vec<String>,
    pub full: bool,
}

/// A labelled section of a primer.
#[derive(Debug, Clone)]
pub struct PrimeSection {
    pub label: String,
    pub units: Vec<PrimeUnit>,
}

/// A primer for a task.
#[derive(Debug, Clone)]
pub struct PrimeResult {
    pub task: String,
    pub sections: Vec<PrimeSection>,
    pub unit_count: usize,
}

// ---------------------------------------------------------------------------
// Question query
// ---------------------------------------------------------------------------

/// Common English words dropped from question queries.
pub open spec fn stop_words() -> Seq<Seq<char>> {
    seq![
        "a"@, "an"@, "and"@, "are"@, "as"@, "at"@, "be"@, "but"@, "by"@, "do"@, "does"@,
        "for"@, "from"@, "had"@, "has"@, "have"@, "he"@, "her"@, "his"@, "how"@, "i"@, "if"@,
        "in"@, "into"@, "is"@, "it"@, "its"@, "me"@, "my"@, "no"@, "not"@, "of"@, "on"@,
        "or"@, "our"@, "out"@, "she"@, "so"@, "some"@, "than"@, "that"@, "the"@, "their"@,
        "them"@, "then"@, "there"@, "these"@, "they"@, "this"@, "to"@, "up"@, "us"@, "was"@,
        "we"@, "what"@, "when"@, "which"@, "who"@, "will"@, "with"@, "would"@, "you"@,
        "your"@,
    ]
}

fn stop_word_list() -> (r: Vec<&'static str>)
    ensures
        r@.map_values(|s: &'static str| s@) == stop_words(),
{
    let v = vec![
        "a", "an", "and", "are", "as", "at", "be", "but", "by", "do", "does", "for", "from",
        "had", "has", "have", "he", "her", "his", "how", "i", "if", "in", "into", "is", "it",
        "its", "me", "my", "no", "not", "of", "on", "or", "our", "out", "she", "so", "some",
        "than", "that", "the", "their", "them", "then", "there", "these", "they", "this", "to",
        "up", "us", "was", "we", "what", "when", "which", "who", "will", "with", "would", "you",
        "your",
    ];
    assert(v@.map_values(|s: &'static str| s@) =~= stop_words());
    v
}

/// Terms of `ts` (from the first `k`) that are not stop words.
pub open spec fn content_terms(ts: Seq<Seq<char>>, k: int) -> Seq<Seq<char>>
    decreases k,
{
    if k <= 0 {
        Seq::empty()
    } else if stop_words().contains(ts[k - 1]) {
        content_terms(ts, k - 1)
    } else {
        content_terms(ts, k - 1).push(ts[k - 1])
    }
}

/// The search query for a question: its terms without stop words,
/// quoted and joined with `OR`; when only stop words remain, all its
/// terms (empty when it has none).
pub open spec fn question_query_spec(q: Seq<char>) -> Seq<char> {
    let ts = fts::query_terms(q);
    let cs = content_terms(ts, ts.len() as int);
    if cs.len() == 0 {
        fts::or_query(ts)
    } else {
        fts::or_query(cs)
    }
}

/// Sanitize a question for the full-text index: quote each word and drop
/// stop words.
pub fn sanitize_fts_query(query: &str) -> (r: String)
    ensures
        r@ == question_query_spec(query@),
{
    let ts = query_terms_exec(query);
    let stops = stop_word_list();
    let ghost tv = text::views(ts@);
    let mut kept: Vec<Vec<char>> = Vec::new();
    let mut i: usize = 0;
    while i < ts.len()
        invariant
            i <= ts@.len(),
            tv == text::views(ts@),
            stops@.map_values(|s: &'static str| s@) == stop_words(),
            text::views(kept@) == content_terms(tv, i as int),
        decreases ts@.len() - i,
    {
        let mut is_stop = false;
        let mut j: usize = 0;
        while j < stops.len() && !is_stop
            invariant
                j <= stops@.len(),
                i < ts@.len(),
                stops@.map_values(|s: &'static str| s@) == stop_words(),
                is_stop ==> stop_words().contains(ts@[i as int]@),
                !is_stop ==> forall|k: int| 0 <= k < j ==> #[trigger] stop_words()[k] != ts@[i as int]@,
            decreases stops@.len() - j, if is_stop { 0int } else { 1int },
        {
            let w = lit(stops[j]);
            if chars_eq(&w, &ts[i]) {
                is_stop = true;
                assert(stop_words()[j as int] == ts@[i as int]@);
            } else {
                j = j + 1;
            }
        }
        proof {
            assert(tv[i as int] == ts@[i as int]@);
            if !is_stop {
                assert(!stop_words().contains(ts@[i as int]@));
            }
        }
        if !is_stop {
            let ghost before = text::views(kept@);
            kept.push(ts[i].clone());
            assert(text::views(kept@) =~= before.push(ts@[i as int]@));
        }
        i = i + 1;
    }
    let q = if kept.len() == 0 {
        or_query_exec(&ts)
    } else {
        or_query_exec(&kept)
    };
    string_of(q.as_slice())
}

// ---------------------------------------------------------------------------
// Answer records
// ---------------------------------------------------------------------------

pub open spec fn link_view(l: LinkInfo) -> (Seq<char>, Seq<char>, Seq<char>) {
    (l.unit_id@, l.relationship@, l.title@)
}

/// Links among the first `k` of `ls` whose far end is not one of `ids`.
pub open spec fn outside_links(ls: Seq<LinkInfo>, ids: Seq<Seq<char>>, k: int) -> Seq<
    (Seq<char>, Seq<char>, Seq<char>),
>
    decreases k,
{
    if k <= 0 {
        Seq::empty()
    } else if ids.contains(ls[k - 1].unit_id@) {
        outside_links(ls, ids, k - 1)
    } else {
        outside_links(ls, ids, k - 1).push(link_view(ls[k - 1]))
    }
}

pub open spec fn strs(v: Seq<String>) -> Seq<Seq<char>> {
    v.map_values(|s: String| s@)
}

/// The answer record of a unit: its fields, and its outgoing then incoming
/// links that lead outside the answer (whose ids are `ids`).
pub open spec fn matched_spec(u: ContextUnit, ids: Seq<Seq<char>>) -> (
    Seq<char>,
    Seq<char>,
    Seq<char>,
    Seq<Seq<char>>,
    Seq<char>,
    bool,
    Seq<(Seq<char>, Seq<char>, Seq<char>)>,
) {
    let ls = u.links_to@ + u.links_from@;
    (
        u.id@,
        u.content@,
        u.unit_type@,
        strs(u.tags@),
        u.source@,
        u.is_direct_match,
        outside_links(ls, ids, ls.len() as int),
    )
}

pub open spec fn matched_view(m: MatchedUnit) -> (
    Seq<char>,
    Seq<char>,
    Seq<char>,
    Seq<Seq<char>>,
    Seq<char>,
    bool,
    Seq<(Seq<char>, Seq<char>, Seq<char>)>,
) {
    (
        m.id@,
        m.content@,
        m.unit_type@,
        strs(m.tags@),
        m.source@,
        m.is_direct_match,
        m.links@.map_values(|l: LinkInfo| link_view(l)),
    )
}

fn copy_strings(v: &Vec<String>) -> (r: Vec<String>)
    ensures
        strs(r@) == strs(v@),
{
    let mut out: Vec<String> = Vec::new();
    let mut i: usize = 0;
    while i < v.len()
        invariant
            i <= v@.len(),
            out@.len() == i,
            forall|k: int| 0 <= k < i ==> #[trigger] out@[k]@ == v@[k]@,
        decreases v@.len() - i,
    {
        out.push(v[i].clone());
        i = i + 1;
    }
    assert(strs(out@) =~= strs(v@));
    out
}

fn copy_link(l: &LinkInfo) -> (r: LinkInfo)
    ensures
        link_view(r) == link_view(*l),
{
    LinkInfo { unit_id: l.unit_id.clone(), relationship: l.relationship.clone(), title: l.title.clone() }
}

fn keep_outside(out: &mut Vec<LinkInfo>, ls: &Vec<LinkInfo>, ids: &Vec<String>)
    ensures
        final(out)@.map_values(|l: LinkInfo| link_view(l)) == old(out)@.map_values(
            |l: LinkInfo| link_view(l),
        ) + outside_links(ls@, strs(ids@), ls@.len() as int),
{
    let ghost start = out@.map_values(|l: LinkInfo| link_view(l));
    let mut i: usize = 0;
    while i < ls.len()
        invariant
            i <= ls@.len(),
            out@.map_values(|l: LinkInfo| link_view(l)) == start + outside_links(
                ls@,
                strs(ids@),
                i as int,
            ),
        decreases ls@.len() - i,
    {
        let inside = contains_str(ids, ls[i].unit_id.as_str());
        proof {
            assert(lint::id_views(ids@) == strs(ids@));
        }
        if !inside {
            let ghost before = out@.map_values(|l: LinkInfo| link_view(l));
            out.push(copy_link(&ls[i]));
            assert(out@.map_values(|l: LinkInfo| link_view(l)) =~= before.push(link_view(ls@[i as int])));
        }
        i = i + 1;
    }
}

proof fn lemma_outside_links_concat(a: Seq<LinkInfo>, b: Seq<LinkInfo>, ids: Seq<Seq<char>>, k: int)
    requires
        0 <= k <= b.len(),
    ensures
        outside_links(a + b, ids, a.len() + k) == outside_links(a, ids, a.len() as int)
            + outside_links(b, ids, k),
    decreases k,
{
    if k == 0 {
        assert(outside_links(a, ids, a.len() as int) + outside_links(b, ids, 0) =~= outside_links(
            a,
            ids,
            a.len() as int,
        ));
        lemma_outside_prefix(a, b, ids, a.len() as int);
    } else {
        lemma_outside_links_concat(a, b, ids, k - 1);
        assert((a + b)[a.len() + k - 1] == b[k - 1]);
    }
}

proof fn lemma_outside_prefix(a: Seq<LinkInfo>, b: Seq<LinkInfo>, ids: Seq<Seq<char>>, k: int)
    requires
        0 <= k <= a.len(),
    ensures
        outside_links(a + b, ids, k) == outside_links(a, ids, k),
    decreases k,
{
    if k > 0 {
        lemma_outside_prefix(a, b, ids, k - 1);
        assert((a + b)[k - 1] == a[k - 1]);
    }
}

/// Answer records of the kept units: each keeps only the links (outgoing
/// first, then incoming) whose far end is not itself in the answer.
pub fn matched_units(kept: &Vec<ContextUnit>) -> (r: Vec<MatchedUnit>)
    ensures
        r@.len() == kept@.len(),
        forall|i: int|
            0 <= i < kept@.len() ==> #[trigger] matched_view(r@[i]) == matched_spec(
                kept@[i],
                kept@.map_values(|u: ContextUnit| u.id@),
            ),
{
    let mut ids: Vec<String> = Vec::new();
    let mut j: usize = 0;
    while j < kept.len()
        invariant
            j <= kept@.len(),
            ids@.len() == j,
            forall|k: int| 0 <= k < j ==> #[trigger] ids@[k]@ == kept@[k].id@,
        decreases kept@.len() - j,
    {
        ids.push(kept[j].id.clone());
        j = j + 1;
    }
    assert(strs(ids@) =~= kept@.map_values(|u: ContextUnit| u.id@));
    let mut out: Vec<MatchedUnit> = Vec::new();
    let mut i: usize = 0;
    while i < kept.len()
        invariant
            i <= kept@.len(),
            strs(ids@) == kept@.map_values(|u: ContextUnit| u.id@),
            out@.len() == i,
            forall|k: int|
                0 <= k < i ==> #[trigger] matched_view(out@[k]) == matched_spec(
                    kept@[k],
                    kept@.map_values(|u: ContextUnit| u.id@),
                ),
        decreases kept@.len() - i,
    {
        let u = &kept[i];
        let mut links: Vec<LinkInfo> = Vec::new();
        assert(links@.map_values(|l: LinkInfo| link_view(l)) =~= Seq::<(Seq<char>, Seq<char>, Seq<char>)>::empty());
        keep_outside(&mut links, &u.links_to, &ids);
        keep_outside(&mut links, &u.links_from, &ids);
        proof {
            lemma_outside_links_concat(u.links_to@, u.links_from@, strs(ids@), u.links_from@.len() as int);
            assert(links@.map_values(|l: LinkInfo| link_view(l)) =~= outside_links(
                u.links_to@ + u.links_from@,
                strs(ids@),
                (u.links_to@ + u.links_from@).len() as int,
            ));
        }
        let m = MatchedUnit {
            id: u.id.clone(),
            content: u.content.clone(),
            unit_type: u.unit_type.clone(),
            tags: copy_strings(&u.tags),
            source: u.source.clone(),
            is_direct_match: u.is_direct_match,
            links,
        };
        out.push(m);
        i = i + 1;
    }
    out
}

// ---------------------------------------------------------------------------
// Relevance filter
// ---------------------------------------------------------------------------

/// Characters of content shown to the relevance filter per unit.
pub const FILTER_PREVIEW_CHARS: usize = 150;

/// ` tags=[a, b]`, or nothing for a unit without tags.
pub open spec fn tags_note(tags: Seq<Seq<char>>) -> Seq<char> {
    if tags.len() == 0 {
        Seq::empty()
    } else {
        " tags=["@ + text::join(tags, ", "@) + "]"@
    }
}

/// `- id=ID type=TYPE tags=[..]: PREVIEW` and a newline.
pub open spec fn summary_line(u: ContextUnit) -> Seq<char> {
    "- id="@ + u.id@ + " type="@ + u.unit_type@ + tags_note(strs(u.tags@)) + ": "@ + text::take_chars(
        u.content@,
        FILTER_PREVIEW_CHARS as int,
    ) + seq!['\n']
}

pub open spec fn summaries(us: Seq<ContextUnit>, k: int) -> Seq<char>
    decreases k,
{
    if k <= 0 {
        Seq::empty()
    } else {
        summaries(us, k - 1) + summary_line(us[k - 1])
    }
}

pub open spec fn filter_head() -> Seq<char> {
    "You are a relevance filter. Given a query and a list of knowledge units, return ONLY the IDs of units relevant to the query.\n\nQuery: "@
}

pub open spec fn filter_mid() -> Seq<char> {
    "\n\nUnits:\n"@
}

pub open spec fn filter_tail() -> Seq<char> {
    "\nReturn ONLY JSON (no markdown, no code fences):\n{\"relevant_ids\": [\"id1\", \"id2\"]}"@
}

/// The relevance-filter prompt for a question over the gathered units.
pub open spec fn relevance_prompt_spec(q: Seq<char>, us: Seq<ContextUnit>) -> Seq<char> {
    filter_head() + q + filter_mid() + summaries(us, us.len() as int) + filter_tail()
}

fn strings_chars(v: &Vec<String>) -> (r: Vec<Vec<char>>)
    ensures
        text::views(r@) == strs(v@),
{
    let mut out: Vec<Vec<char>> = Vec::new();
    let mut i: usize = 0;
    while i < v.len()
        invariant
            i <= v@.len(),
            out@.len() == i,
            forall|k: int| 0 <= k < i ==> #[trigger] out@[k]@ == v@[k]@,
        decreases v@.len() - i,
    {
        out.push(chars_of(v[i].as_str()));
        i = i + 1;
    }
    assert(text::views(out@) =~= strs(v@));
    out
}

fn summary_line_exec(u: &ContextUnit) -> (r: Vec<char>)
    ensures
        r@ == summary_line(*u),
{
    let mut out = lit("- id=");
    append_chars(&mut out, &chars_of(u.id.as_str()));
    append_chars(&mut out, &lit(" type="));
    append_chars(&mut out, &chars_of(u.unit_type.as_str()));
    if u.tags.len() > 0 {
        append_chars(&mut out, &lit(" tags=["));
        let tv = strings_chars(&u.tags);
        append_chars(&mut out, &text::join_exec(&tv, &lit(", ")));
        append_chars(&mut out, &lit("]"));
    }
    append_chars(&mut out, &lit(": "));
    let c = chars_of(u.content.as_str());
    append_chars(&mut out, &take_chars_exec(&c, FILTER_PREVIEW_CHARS));
    out.push('\n');
    proof {
        reveal_strlit("- id=");
        reveal_strlit(" type=");
        reveal_strlit(" tags=[");
        reveal_strlit("]");
        reveal_strlit(": ");
        reveal_strlit(", ");
    }
    assert(out@ =~= summary_line(*u));
    out
}

/// The prompt that asks the model which gathered units are relevant to
/// the question: one summary line per unit (id, type, tags and the first
/// 150 characters of content) and the expected JSON reply shape.
pub fn relevance_prompt(query: &str, gathered: &Vec<ContextUnit>) -> (r: String)
    ensures
        r@ == relevance_prompt_spec(query@, gathered@),
{
    let mut sums: Vec<char> = Vec::new();
    let mut i: usize = 0;
    while i < gathered.len()
        invariant
            i <= gathered@.len(),
            sums@ == summaries(gathered@, i as int),
        decreases gathered@.len() - i,
    {
        append_chars(&mut sums, &summary_line_exec(&gathered[i]));
        i = i + 1;
    }
    let mut out = lit(
        "You are a relevance filter. Given a query and a list of knowledge units, return ONLY the IDs of units relevant to the query.\n\nQuery: ",
    );
    append_chars(&mut out, &chars_of(query));
    append_chars(&mut out, &lit("\n\nUnits:\n"));
    append_chars(&mut out, &sums);
    append_chars(
        &mut out,
        &lit("\nReturn ONLY JSON (no markdown, no code fences):\n{\"relevant_ids\": [\"id1\", \"id2\"]}"),
    );
    assert(out@ =~= relevance_prompt_spec(query@, gathered@));
    string_of(out.as_slice())
}

/// The reply with a Markdown code fence around it removed: a leading
/// fence with `json` or without, then a trailing fence if present, then
/// surrounding whitespace.
pub open spec fn defence(inner: Seq<char>) -> Seq<char> {
    let fj = "```json"@;
    let f = "```"@;
    if text::starts_with(inner, fj) {
        let rest = inner.skip(fj.len() as int);
        text::trim(if text::ends_with(rest, f) { rest.take(rest.len() - f.len()) } else { rest })
    } else if text::starts_with(inner, f) {
        let rest = inner.skip(f.len() as int);
        text::trim(if text::ends_with(rest, f) { rest.take(rest.len() - f.len()) } else { rest })
    } else {
        inner
    }
}

/// From the first `{` to the last `}` when both exist in that order; the
/// whole text otherwise.
pub open spec fn json_span(d: Seq<char>) -> Seq<char> {
    match (text::find(d, seq!['{']), text::rfind(d, seq!['}'])) {
        (Some(lo), Some(hi)) => if hi >= lo {
            d.subrange(lo, hi + 1)
        } else {
            d
        },
        _ => d,
    }
}

fn strip_fence(v: &Vec<char>, pre: &Vec<char>) -> (r: Vec<char>)
    requires
        text::starts_with(v@, pre@),
    ensures
        r@ == text::trim(
            if text::ends_with(v@.skip(pre@.len() as int), "```"@) {
                v@.skip(pre@.len() as int).take(v@.skip(pre@.len() as int).len() - 3)
            } else {
                v@.skip(pre@.len() as int)
            },
        ),
{
    let rest = text::copy_range(v, pre.len(), v.len());
    assert(rest@ =~= v@.skip(pre@.len() as int));
    let f = lit("```");
    proof {
        reveal_strlit("```");
    }
    if ends_with_exec(&rest, &f) {
        let cut = text::copy_range(&rest, 0, rest.len() - 3);
        assert(cut@ =~= rest@.take(rest@.len() - 3));
        trim_chars(&cut)
    } else {
        trim_chars(&rest)
    }
}

pub(crate) fn defence_exec(inner: &Vec<char>) -> (r: Vec<char>)
    ensures
        r@ == defence(inner@),
{
    let fj = lit("```json");
    let f = lit("```");
    proof {
        reveal_strlit("```json");
        reveal_strlit("```");
    }
    if starts_with_exec(inner, &fj) {
        strip_fence(inner, &fj)
    } else if starts_with_exec(inner, &f) {
        strip_fence(inner, &f)
    } else {
        inner.clone()
    }
}

pub(crate) fn json_span_exec(d: &Vec<char>) -> (r: Vec<char>)
    ensures
        r@ == json_span(d@),
{
    let open = lit("{");
    let close = lit("}");
    proof {
        reveal_strlit("{");
        reveal_strlit("}");
        assert(open@ =~= seq!['{']);
        assert(close@ =~= seq!['}']);
        text::lemma_find_from_bounds(d@, seq!['{'], 0);
        text::lemma_rfind_from_bounds(d@, seq!['}'], d@.len() - 1);
    }
    match (find_exec(d, &open), rfind_exec(d, &close)) {
        (Some(lo), Some(hi)) => {
            if hi >= lo {
                assert(hi < d.len());
                text::copy_range(d, lo, hi + 1)
            } else {
                d.clone()
            }
        },
        _ => d.clone(),
    }
}

/// Which gathered units the filter kept: those whose id the model listed,
/// in gathered order, with `false`; or every unit with `true` (fallback)
/// when the reply did not parse or kept none.
pub open spec fn selection_spec(ids: Seq<Seq<char>>, listed: Option<Seq<Seq<char>>>) -> (Seq<int>, bool) {
    match listed {
        None => (Seq::new(ids.len(), |i: int| i), true),
        Some(l) => {
            let sel = chosen(ids, l, ids.len() as int);
            if sel.len() == 0 {
                (Seq::new(ids.len(), |i: int| i), true)
            } else {
                (sel, false)
            }
        },
    }
}

/// Positions below `k` whose id is listed.
pub open spec fn chosen(ids: Seq<Seq<char>>, listed: Seq<Seq<char>>, k: int) -> Seq<int>
    decreases k,
{
    if k <= 0 {
        Seq::empty()
    } else if listed.contains(ids[k - 1]) {
        chosen(ids, listed, k - 1).push(k - 1)
    } else {
        chosen(ids, listed, k - 1)
    }
}

pub open spec fn ints(v: Seq<usize>) -> Seq<int> {
    v.map_values(|x: usize| x as int)
}

/// Apply the model's list of relevant ids (`None` when its reply did not
/// parse) to the gathered units' ids: positions kept, and whether the
/// filter fell back to keeping everything.
pub fn select_relevant(ids: &Vec<String>, listed: Option<Vec<String>>) -> (r: (Vec<usize>, bool))
    ensures
        (ints(r.0@), r.1) == selection_spec(
            strs(ids@),
            match listed {
                Some(l) => Some(strs(l@)),
                None => None,
            },
        ),
{
    let mut all: Vec<usize> = Vec::new();
    let mut k: usize = 0;
    while k < ids.len()
        invariant
            k <= ids@.len(),
            ints(all@) == Seq::new(k as nat, |i: int| i),
        decreases ids@.len() - k,
    {
        let ghost before = ints(all@);
        all.push(k);
        assert(ints(all@) =~= before.push(k as int));
        k = k + 1;
        assert(ints(all@) =~= Seq::new(k as nat, |i: int| i));
    }
    match listed {
        None => (all, true),
        Some(l) => {
            let mut sel: Vec<usize> = Vec::new();
            let mut i: usize = 0;
            while i < ids.len()
                invariant
                    i <= ids@.len(),
                    ints(sel@) == chosen(strs(ids@), strs(l@), i as int),
                decreases ids@.len() - i,
            {
                let hit = contains_str(&l, ids[i].as_str());
                proof {
                    assert(lint::id_views(l@) == strs(l@));
                    assert(strs(ids@)[i as int] == ids@[i as int]@);
                }
                if hit {
                    let ghost before = ints(sel@);
                    sel.push(i);
                    assert(ints(sel@) =~= before.push(i as int));
                }
                i = i + 1;
            }
            if sel.len() == 0 {
                (all, true)
            } else {
                (sel, false)
            }
        },
    }
}

/// The JSON text of the model's answer: the `result` of the command's
/// output envelope (`None` when the output is no such envelope), trimmed,
/// unfenced and cut to its outermost object.
pub open spec fn reply_json_spec(result: Option<Seq<char>>) -> Option<Seq<char>> {
    match result {
        None => None,
        Some(res) => Some(json_span(defence(text::trim(res)))),
    }
}

/// Take the model's JSON answer out of the `result` of the command's
/// output envelope; the caller reads the envelope, and the answer, into
/// their typed forms.
pub fn reply_json(result: Option<&str>) -> (r: Option<String>)
    ensures
        match reply_json_spec(
            match result {
                Some(s) => Some(s@),
                None => None,
            },
        ) {
            None => r is None,
            Some(j) => r matches Some(x) && x@ == j,
        },
{
    match result {
        None => None,
        Some(res) => {
            let inner = trim_chars(&chars_of(res));
            let d = defence_exec(&inner);
            let js = json_span_exec(&d);
            Some(string_of(js.as_slice()))
        },
    }
}

// ---------------------------------------------------------------------------
// Primer
// ---------------------------------------------------------------------------

/// Most directory entries per primer section (primary aspects excepted).
pub const SECTION_CAP: usize = 20;

/// The primer section of a unit type: Aspects, Procedures, Principles,
/// Preferences, Context (facts, lessons, ideas); -1 for any other type.
pub open spec fn section_of(t: Seq<char>) -> int {
    if t == "aspect"@ {
        0
    } else if t == "procedure"@ {
        1
    } else if t == "principle"@ {
        2
    } else if t == "preference"@ {
        3
    } else if t == "fact"@ || t == "lesson"@ || t == "idea"@ {
        4
    } else {
        -1
    }
}

pub open spec fn section_label(s: int) -> Seq<char> {
    if s == 0 {
        "Aspects"@
    } else if s == 1 {
        "Procedures"@
    } else if s == 2 {
        "Principles"@
    } else if s == 3 {
        "Preferences"@
    } else {
        "Context"@
    }
}

pub open spec fn prime_unit_view(u: PrimeUnit) -> (Seq<char>, Seq<char>, Seq<Seq<char>>, bool) {
    (u.id@, u.content@, strs(u.tags@), u.full)
}

/// Entries of section `s` from the first `k` candidates, and how many were
/// kept: candidates of the section's types in order; once the cap is
/// reached only primary aspects are still taken. Aspects are shown in
/// full when primary, preferences always, everything else as a
/// directory entry.
pub open spec fn section_entries(
    c: Seq<ContextUnit>,
    s: int,
    primary: Seq<Seq<char>>,
    k: int,
) -> (Seq<(Seq<char>, Seq<char>, Seq<Seq<char>>, bool)>, int)
    decreases k,
{
    if k <= 0 {
        (Seq::empty(), 0)
    } else {
        let (es, kept) = section_entries(c, s, primary, k - 1);
        let u = c[k - 1];
        let t = u.unit_type@;
        if section_of(t) != s {
            (es, kept)
        } else {
            let primary_aspect = t == "aspect"@ && primary.contains(u.id@);
            if !primary_aspect && kept >= SECTION_CAP {
                (es, kept)
            } else {
                let full = if t == "aspect"@ {
                    primary.contains(u.id@)
                } else {
                    t == "preference"@
                };
                (es.push((u.id@, u.content@, strs(u.tags@), full)), kept + 1)
            }
        }
    }
}

/// Non-empty sections among the first `s` in primer order.
pub open spec fn primer_sections(c: Seq<ContextUnit>, primary: Seq<Seq<char>>, s: int) -> Seq<
    (Seq<char>, Seq<(Seq<char>, Seq<char>, Seq<Seq<char>>, bool)>),
>
    decreases s,
{
    if s <= 0 {
        Seq::empty()
    } else {
        let es = section_entries(c, s - 1, primary, c.len() as int).0;
        if es.len() > 0 {
            primer_sections(c, primary, s - 1).push((section_label(s - 1), es))
        } else {
            primer_sections(c, primary, s - 1)
        }
    }
}

pub open spec fn section_view(p: PrimeSection) -> (Seq<char>, Seq<(Seq<char>, Seq<char>, Seq<Seq<char>>, bool)>) {
    (p.label@, p.units@.map_values(|u: PrimeUnit| prime_unit_view(u)))
}

/// Total entries over the first `s` sections.
pub open spec fn entry_total(ps: Seq<(Seq<char>, Seq<(Seq<char>, Seq<char>, Seq<Seq<char>>, bool)>)>, s: int) -> int
    decreases s,
{
    if s <= 0 {
        0
    } else {
        entry_total(ps, s - 1) + ps[s - 1].1.len()
    }
}

proof fn lemma_section_entries_len(c: Seq<ContextUnit>, s: int, primary: Seq<Seq<char>>, k: int)
    requires
        0 <= k <= c.len(),
    ensures
        section_entries(c, s, primary, k).0.len() == section_entries(c, s, primary, k).1,
        0 <= section_entries(c, s, primary, k).1 <= k,
    decreases k,
{
    if k > 0 {
        lemma_section_entries_len(c, s, primary, k - 1);
    }
}

/// Entries of all five sections together, from the first `k` candidates.
pub open spec fn all_entries(c: Seq<ContextUnit>, primary: Seq<Seq<char>>, k: int) -> int {
    section_entries(c, 0, primary, k).1 + section_entries(c, 1, primary, k).1 + section_entries(
        c,
        2,
        primary,
        k,
    ).1 + section_entries(c, 3, primary, k).1 + section_entries(c, 4, primary, k).1
}

proof fn lemma_all_entries_le(c: Seq<ContextUnit>, primary: Seq<Seq<char>>, k: int)
    requires
        0 <= k <= c.len(),
    ensures
        all_entries(c, primary, k) <= k,
    decreases k,
{
    if k > 0 {
        lemma_all_entries_le(c, primary, k - 1);
        lemma_section_entries_len(c, 0, primary, k - 1);
        lemma_section_entries_len(c, 1, primary, k - 1);
        lemma_section_entries_len(c, 2, primary, k - 1);
        lemma_section_entries_len(c, 3, primary, k - 1);
        lemma_section_entries_len(c, 4, primary, k - 1);
    }
}

fn section_of_exec(t: &str) -> (r: i64)
    ensures
        r == section_of(t@),
{
    if text::str_eq(t, "aspect") {
        0
    } else if text::str_eq(t, "procedure") {
        1
    } else if text::str_eq(t, "principle") {
        2
    } else if text::str_eq(t, "preference") {
        3
    } else if text::str_eq(t, "fact") || text::str_eq(t, "lesson") || text::str_eq(t, "idea") {
        4
    } else {
        -1
    }
}

fn section_entries_exec(
    inj: &Vec<ContextUnit>,
    gath: &Vec<ContextUnit>,
    s: i64,
    primary: &Vec<String>,
) -> (r: Vec<PrimeUnit>)
    requires
        inj@.len() + gath@.len() <= usize::MAX,
    ensures
        r@.map_values(|u: PrimeUnit| prime_unit_view(u)) == section_entries(
            inj@ + gath@,
            s as int,
            strs(primary@),
            (inj@ + gath@).len() as int,
        ).0,
{
    let ghost c = inj@ + gath@;
    let n = inj.len() + gath.len();
    let mut out: Vec<PrimeUnit> = Vec::new();
    let mut kept: usize = 0;
    let mut k: usize = 0;
    while k < n
        invariant
            k <= n,
            n == c.len(),
            c == inj@ + gath@,
            out@.map_values(|u: PrimeUnit| prime_unit_view(u)) == section_entries(
                c,
                s as int,
                strs(primary@),
                k as int,
            ).0,
            kept as int == section_entries(c, s as int, strs(primary@), k as int).1,
            kept <= k,
        decreases n - k,
    {
        proof {
            lemma_section_entries_len(c, s as int, strs(primary@), k as int);
        }
        let u = if k < inj.len() {
            &inj[k]
        } else {
            &gath[k - inj.len()]
        };
        assert(*u == c[k as int]);
        if section_of_exec(u.unit_type.as_str()) == s {
            let is_aspect = text::str_eq(u.unit_type.as_str(), "aspect");
            let in_primary = contains_str(primary, u.id.as_str());
            proof {
                assert(lint::id_views(primary@) == strs(primary@));
            }
            let primary_aspect = is_aspect && in_primary;
            if primary_aspect || kept < SECTION_CAP {
                let full = if is_aspect {
                    in_primary
                } else {
                    text::str_eq(u.unit_type.as_str(), "preference")
                };
                let e = PrimeUnit {
                    id: u.id.clone(),
                    content: u.content.clone(),
                    tags: copy_strings(&u.tags),
                    full,
                };
                let ghost before = out@.map_values(|u: PrimeUnit| prime_unit_view(u));
                out.push(e);
                assert(out@.map_values(|u: PrimeUnit| prime_unit_view(u)) =~= before.push(
                    prime_unit_view(e),
                ));
                kept = kept + 1;
            }
        }
        k = k + 1;
    }
    out
}

/// The primer's sections and entry count for a task, given the gathered
/// units (search matches first, then their neighbours), the primary
/// aspects that were named but not gathered, and the ids asked for as
/// primary. Injected aspects come first in their section. Nothing is
/// listed when nothing was gathered.
pub open spec fn primer_spec(
    gathered: Seq<ContextUnit>,
    injected: Seq<ContextUnit>,
    primary: Seq<Seq<char>>,
) -> Seq<(Seq<char>, Seq<(Seq<char>, Seq<char>, Seq<Seq<char>>, bool)>)> {
    if gathered.len() == 0 {
        Seq::empty()
    } else {
        primer_sections(injected + gathered, primary, 5)
    }
}

proof fn lemma_section_entries_grow(c: Seq<ContextUnit>, s: int, primary: Seq<Seq<char>>, k: int, x: (Seq<char>, Seq<char>, Seq<Seq<char>>, bool))
    requires
        0 < k <= c.len(),
        section_entries(c, s, primary, k - 1).0.contains(x),
    ensures
        section_entries(c, s, primary, k).0.contains(x),
{
    let prev = section_entries(c, s, primary, k - 1).0;
    let i = choose|i: int| 0 <= i < prev.len() && prev[i] == x;
    let cur = section_entries(c, s, primary, k).0;
    if cur != prev {
        assert(cur[i] == x);
    }
}

/// A primary aspect among the first `k` candidates is listed in the
/// Aspects entries, in full.
proof fn lemma_primary_aspect_listed(c: Seq<ContextUnit>, primary: Seq<Seq<char>>, k: int, j: int)
    requires
        0 <= j < k <= c.len(),
        c[j].unit_type@ == "aspect"@,
        primary.contains(c[j].id@),
    ensures
        section_entries(c, 0, primary, k).0.contains((c[j].id@, c[j].content@, strs(c[j].tags@), true)),
    decreases k,
{
    let x = (c[j].id@, c[j].content@, strs(c[j].tags@), true);
    if j == k - 1 {
        let es = section_entries(c, 0, primary, k - 1).0;
        assert(section_entries(c, 0, primary, k).0 == es.push(x));
        assert(es.push(x)[es.len() as int] == x);
    } else {
        lemma_primary_aspect_listed(c, primary, k - 1, j);
        lemma_section_entries_grow(c, 0, primary, k, x);
    }
}

/// Once the Aspects section has entries, it stays the first section.
proof fn lemma_aspects_first(c: Seq<ContextUnit>, primary: Seq<Seq<char>>, s: int)
    requires
        1 <= s,
        section_entries(c, 0, primary, c.len() as int).0.len() > 0,
    ensures
        primer_sections(c, primary, s).len() > 0,
        primer_sections(c, primary, s)[0] == (section_label(0), section_entries(c, 0, primary, c.len() as int).0),
    decreases s,
{
    let prev = primer_sections(c, primary, s - 1);
    let es = section_entries(c, s - 1, primary, c.len() as int).0;
    if s > 1 {
        lemma_aspects_first(c, primary, s - 1);
        if es.len() > 0 {
            assert(primer_sections(c, primary, s) == prev.push((section_label(s - 1), es)));
            assert(prev.push((section_label(s - 1), es))[0] == prev[0]);
        }
    } else {
        assert(prev =~= Seq::empty());
        assert(primer_sections(c, primary, s) == prev.push((section_label(0), es)));
    }
}

/// A primary aspect (named among the primary ids, gathered or injected) is
/// never dropped from a primer and always comes with its full body: it is
/// an entry of the leading Aspects section, marked full.
pub proof fn law_primary_aspects_listed_in_full(
    gathered: Seq<ContextUnit>,
    injected: Seq<ContextUnit>,
    primary: Seq<Seq<char>>,
    j: int,
)
    requires
        gathered.len() > 0,
        0 <= j < (injected + gathered).len(),
        (injected + gathered)[j].unit_type@ == "aspect"@,
        primary.contains((injected + gathered)[j].id@),
    ensures
        primer_spec(gathered, injected, primary).len() > 0,
        primer_spec(gathered, injected, primary)[0].0 == "Aspects"@,
        primer_spec(gathered, injected, primary)[0].1.contains(
            (
                (injected + gathered)[j].id@,
                (injected + gathered)[j].content@,
                strs((injected + gathered)[j].tags@),
                true,
            ),
        ),
{
    let c = injected + gathered;
    lemma_primary_aspect_listed(c, primary, c.len() as int, j);
    lemma_aspects_first(c, primary, 5);
}

/// Some unit of `units` has id `id`.
pub open spec fn has_unit_id(units: Seq<ContextUnit>, id: Seq<char>) -> bool {
    exists|k: int| 0 <= k < units.len() && #[trigger] units[k].id@ == id
}

/// The units a primer adds for explicitly requested ids: the aspects among
/// `cands` that the search did not already gather, in order.
pub open spec fn injections_spec(gathered: Seq<ContextUnit>, cands: Seq<ContextUnit>) -> Seq<ContextUnit>
    decreases cands.len(),
{
    if cands.len() == 0 {
        Seq::empty()
    } else {
        let p = injections_spec(gathered, cands.drop_last());
        let c = cands.last();
        if c.unit_type@ == "aspect"@ && !has_unit_id(gathered, c.id@) {
            p.push(c)
        } else {
            p
        }
    }
}

fn gathered_has_id(gathered: &Vec<ContextUnit>, id: &str) -> (r: bool)
    ensures
        r == has_unit_id(gathered@, id@),
{
    let mut k: usize = 0;
    while k < gathered.len()
        invariant
            k <= gathered@.len(),
            forall|q: int| 0 <= q < k ==> #[trigger] gathered@[q].id@ != id@,
        decreases gathered@.len() - k,
    {
        if text::str_eq(gathered[k].id.as_str(), id) {
            return true;
        }
        k = k + 1;
    }
    false
}

/// Keep the requested units a primer injects: aspects the search did not
/// gather already, in the order requested.
pub fn aspects_to_inject(gathered: &Vec<ContextUnit>, candidates: Vec<ContextUnit>) -> (r: Vec<ContextUnit>)
    ensures
        r@ == injections_spec(gathered@, candidates@),
{
    let ghost c0 = candidates@;
    let mut rest = candidates;
    let mut out: Vec<ContextUnit> = Vec::new();
    let mut i: usize = 0;
    assert(c0.len() == rest.len());
    while rest.len() > 0
        invariant
            c0.len() <= usize::MAX,
            i <= c0.len(),
            rest@ == c0.subrange(i as int, c0.len() as int),
            out@ == injections_spec(gathered@, c0.take(i as int)),
        decreases rest@.len(),
    {
        let c = rest.remove(0);
        assert(c == c0[i as int]);
        assert(c0.take(i + 1).drop_last() =~= c0.take(i as int));
        assert(c0.take(i + 1).last() == c);
        let is_aspect = text::str_eq(c.unit_type.as_str(), "aspect");
        if is_aspect && !gathered_has_id(gathered, c.id.as_str()) {
            out.push(c);
        }
        i = i + 1;
        assert(rest@ =~= c0.subrange(i as int, c0.len() as int));
    }
    assert(c0.take(i as int) =~= c0);
    out
}

/// Assemble a primer for `task` (see [`primer_spec`]).
pub fn assemble_prime(
    task: &str,
    gathered: &Vec<ContextUnit>,
    injected: &Vec<ContextUnit>,
    primary_ids: &Vec<String>,
) -> (r: PrimeResult)
    requires
        injected@.len() + gathered@.len() <= usize::MAX,
    ensures
        r.task@ == task@,
        r.sections@.map_values(|p: PrimeSection| section_view(p)) == primer_spec(
            gathered@,
            injected@,
            strs(primary_ids@),
        ),
        r.unit_count as int == entry_total(
            primer_spec(gathered@, injected@, strs(primary_ids@)),
            primer_spec(gathered@, injected@, strs(primary_ids@)).len() as int,
        ),
{
    if gathered.len() == 0 {
        let r = PrimeResult { task: task.to_owned(), sections: Vec::new(), unit_count: 0 };
        assert(r.sections@.map_values(|p: PrimeSection| section_view(p)) =~= Seq::<
            (Seq<char>, Seq<(Seq<char>, Seq<char>, Seq<Seq<char>>, bool)>),
        >::empty());
        return r;
    }
    let ghost c = injected@ + gathered@;
    let ghost pr = strs(primary_ids@);
    let labels = vec!["Aspects", "Procedures", "Principles", "Preferences", "Context"];
    let mut sections: Vec<PrimeSection> = Vec::new();
    let mut count: usize = 0;
    let mut s: usize = 0;
    proof {
        lemma_all_entries_le(c, pr, c.len() as int);
        lemma_section_entries_len(c, 0, pr, c.len() as int);
        lemma_section_entries_len(c, 1, pr, c.len() as int);
        lemma_section_entries_len(c, 2, pr, c.len() as int);
        lemma_section_entries_len(c, 3, pr, c.len() as int);
        lemma_section_entries_len(c, 4, pr, c.len() as int);
    }
    while s < 5
        invariant
            s <= 5,
            c == injected@ + gathered@,
            pr == strs(primary_ids@),
            injected@.len() + gathered@.len() <= usize::MAX,
            labels@.len() == 5,
            forall|k: int| 0 <= k < 5 ==> #[trigger] labels@[k]@ == section_label(k),
            all_entries(c, pr, c.len() as int) <= c.len(),
            forall|k: int| #![trigger section_entries(c, k, pr, c.len() as int)]
                0 <= k < 5 ==> section_entries(c, k, pr, c.len() as int).0.len()
                    == section_entries(c, k, pr, c.len() as int).1 && 0 <= section_entries(
                    c,
                    k,
                    pr,
                    c.len() as int,
                ).1,
            sections@.map_values(|p: PrimeSection| section_view(p)) == primer_sections(c, pr, s as int),
            count as int == entry_total(primer_sections(c, pr, s as int), primer_sections(c, pr, s as int).len() as int),
            count as int <= partial_entries(c, pr, s as int),
        decreases 5 - s,
    {
        let es = section_entries_exec(injected, gathered, s as i64, primary_ids);
        let ghost ps = primer_sections(c, pr, s as int);
        proof {
            reveal_strlit("Aspects");
            reveal_strlit("Procedures");
            reveal_strlit("Principles");
            reveal_strlit("Preferences");
            reveal_strlit("Context");
            lemma_partial_entries_le(c, pr, s as int + 1);
        }
        if es.len() > 0 {
            let ghost before = sections@.map_values(|p: PrimeSection| section_view(p));
            let n = es.len();
            let sec = PrimeSection { label: labels[s].to_owned(), units: es };
            sections.push(sec);
            proof {
                assert(sections@.map_values(|p: PrimeSection| section_view(p)) =~= before.push(
                    section_view(sec),
                ));
                let ps2 = primer_sections(c, pr, s as int + 1);
                assert(ps2 == ps.push(section_view(sec)));
                assert(ps2.drop_last() =~= ps);
                lemma_entry_total_prefix(ps2, ps, ps.len() as int);
            }
            count = count + n;
        }
        s = s + 1;
    }
    PrimeResult { task: task.to_owned(), sections, unit_count: count }
}

/// Entries of the first `s` sections together.
pub open spec fn partial_entries(c: Seq<ContextUnit>, primary: Seq<Seq<char>>, s: int) -> int
    decreases s,
{
    if s <= 0 {
        0
    } else {
        partial_entries(c, primary, s - 1) + section_entries(c, s - 1, primary, c.len() as int).1
    }
}

proof fn lemma_partial_entries_le(c: Seq<ContextUnit>, primary: Seq<Seq<char>>, s: int)
    requires
        0 <= s <= 5,
    ensures
        partial_entries(c, primary, s) <= all_entries(c, primary, c.len() as int),
{
    lemma_section_entries_len(c, 0, primary, c.len() as int);
    lemma_section_entries_len(c, 1, primary, c.len() as int);
    lemma_section_entries_len(c, 2, primary, c.len() as int);
    lemma_section_entries_len(c, 3, primary, c.len() as int);
    lemma_section_entries_len(c, 4, primary, c.len() as int);
    reveal_with_fuel(partial_entries, 6);
}

proof fn lemma_entry_total_prefix(
    a: Seq<(Seq<char>, Seq<(Seq<char>, Seq<char>, Seq<Seq<char>>, bool)>)>,
    b: Seq<(Seq<char>, Seq<(Seq<char>, Seq<char>, Seq<Seq<char>>, bool)>)>,
    k: int,
)
    requires
        0 <= k <= b.len(),
        k <= a.len(),
        forall|i: int| 0 <= i < k ==> a[i] == b[i],
    ensures
        entry_total(a, k) == entry_total(b, k),
    decreases k,
{
    if k > 0 {
        lemma_entry_total_prefix(a, b, k - 1);
    }
}

// ---------------------------------------------------------------------------
// Synthesis prompt and gathered order
// ---------------------------------------------------------------------------

/// `[ID] type=TYPE source=SOURCE tags=A, B`, the content, and `---`.
pub open spec fn unit_block(u: ContextUnit) -> Seq<char> {
    "["@ + u.id@ + "] type="@ + u.unit_type@ + " source="@ + u.source@ + " tags="@ + text::join(
        strs(u.tags@),
        ", "@,
    ) + seq!['\n'] + u.content@ + "\n---\n"@
}

pub open spec fn unit_blocks(us: Seq<ContextUnit>, k: int) -> Seq<char>
    decreases k,
{
    if k <= 0 {
        Seq::empty()
    } else {
        unit_blocks(us, k - 1) + unit_block(us[k - 1])
    }
}

pub open spec fn synthesis_head() -> Seq<char> {
    "You are a knowledge RETRIEVAL system. You return relevant knowledge — nothing else.\n\nRules:\n- Return ONLY knowledge relevant to the context below\n- Do NOT act on the query — you are not doing the work\n- Do NOT plan, execute, ask questions, or offer to help\n- Do NOT say \"I can help with that\" or \"Here's how to do it\"\n- Format: concise, dense, factual — procedures as steps, facts as statements\n- Include all relevant detail from the knowledge units\n- If knowledge is insufficient, state what's missing\n- No preamble — just the knowledge\n\nContext: "@
}

/// The answer-synthesis prompt: retrieval rules, the question as context,
/// and every kept unit in full.
pub open spec fn synthesis_prompt_spec(q: Seq<char>, us: Seq<ContextUnit>) -> Seq<char> {
    synthesis_head() + q + "\n\nKnowledge units:\n"@ + unit_blocks(us, us.len() as int)
}

fn unit_block_exec(u: &ContextUnit) -> (r: Vec<char>)
    ensures
        r@ == unit_block(*u),
{
    let mut out = lit("[");
    append_chars(&mut out, &chars_of(u.id.as_str()));
    append_chars(&mut out, &lit("] type="));
    append_chars(&mut out, &chars_of(u.unit_type.as_str()));
    append_chars(&mut out, &lit(" source="));
    append_chars(&mut out, &chars_of(u.source.as_str()));
    append_chars(&mut out, &lit(" tags="));
    let tv = strings_chars(&u.tags);
    append_chars(&mut out, &text::join_exec(&tv, &lit(", ")));
    out.push('\n');
    append_chars(&mut out, &chars_of(u.content.as_str()));
    append_chars(&mut out, &lit("\n---\n"));
    assert(out@ =~= unit_block(*u));
    out
}

/// The prompt that asks the model to answer a question from the kept units.
pub fn synthesis_prompt(query: &str, units: &Vec<ContextUnit>) -> (r: String)
    ensures
        r@ == synthesis_prompt_spec(query@, units@),
{
    let mut blocks: Vec<char> = Vec::new();
    let mut i: usize = 0;
    while i < units.len()
        invariant
            i <= units@.len(),
            blocks@ == unit_blocks(units@, i as int),
        decreases units@.len() - i,
    {
        append_chars(&mut blocks, &unit_block_exec(&units[i]));
        i = i + 1;
    }
    let mut out = lit("You are a knowledge RETRIEVAL system. You return relevant knowledge — nothing else.\n\nRules:\n- Return ONLY knowledge relevant to the context below\n- Do NOT act on the query — you are not doing the work\n- Do NOT plan, execute, ask questions, or offer to help\n- Do NOT say \"I can help with that\" or \"Here's how to do it\"\n- Format: concise, dense, factual — procedures as steps, facts as statements\n- Include all relevant detail from the knowledge units\n- If knowledge is insufficient, state what's missing\n- No preamble — just the knowledge\n\nContext: ");
    append_chars(&mut out, &chars_of(query));
    append_chars(&mut out, &lit("\n\nKnowledge units:\n"));
    append_chars(&mut out, &blocks);
    assert(out@ =~= synthesis_prompt_spec(query@, units@));
    string_of(out.as_slice())
}

/// `x` is listed strictly before `e`: a direct match before a neighbour,
/// then by id.
pub open spec fn gathered_before(x: ContextUnit, e: ContextUnit) -> bool {
    (x.is_direct_match && !e.is_direct_match) || (x.is_direct_match == e.is_direct_match
        && text::lex_lt(x.id@, e.id@))
}

pub open spec fn gathered_insert_pos(s: Seq<ContextUnit>, x: ContextUnit, i: int) -> int
    decreases s.len() - i,
{
    if i < 0 || i >= s.len() {
        i
    } else if gathered_before(x, s[i]) {
        i
    } else {
        gathered_insert_pos(s, x, i + 1)
    }
}

/// Stable sort of gathered units: direct matches first, then by id.
pub open spec fn sorted_gathered(s: Seq<ContextUnit>) -> Seq<ContextUnit>
    decreases s.len(),
{
    if s.len() == 0 {
        Seq::empty()
    } else {
        let sorted = sorted_gathered(s.drop_last());
        sorted.insert(gathered_insert_pos(sorted, s.last(), 0), s.last())
    }
}

proof fn lemma_gathered_insert_pos_bounds(s: Seq<ContextUnit>, x: ContextUnit, i: int)
    requires
        0 <= i <= s.len(),
    ensures
        i <= gathered_insert_pos(s, x, i) <= s.len(),
    decreases s.len() - i,
{
    if i < s.len() && !gathered_before(x, s[i]) {
        lemma_gathered_insert_pos_bounds(s, x, i + 1);
    }
}

proof fn lemma_gathered_before_transitive(x: ContextUnit, y: ContextUnit, z: ContextUnit)
    requires
        gathered_before(x, y),
        gathered_before(y, z),
    ensures
        gathered_before(x, z),
{
    if x.is_direct_match == y.is_direct_match && y.is_direct_match == z.is_direct_match {
        text::law_lex_order_transitive(x.id@, y.id@, z.id@);
    }
}

proof fn lemma_gathered_insert_pos_props(s: Seq<ContextUnit>, x: ContextUnit, i: int)
    requires
        0 <= i <= s.len(),
        forall|q: int| 0 <= q < i ==> !gathered_before(x, #[trigger] s[q]),
    ensures
        i <= gathered_insert_pos(s, x, i) <= s.len(),
        forall|q: int| 0 <= q < gathered_insert_pos(s, x, i) ==> !gathered_before(x, #[trigger] s[q]),
        gathered_insert_pos(s, x, i) < s.len() ==> gathered_before(x, s[gathered_insert_pos(s, x, i)]),
    decreases s.len() - i,
{
    if i < s.len() && !gathered_before(x, s[i]) {
        lemma_gathered_insert_pos_props(s, x, i + 1);
    }
}

/// No unit of `s` sorts strictly before one that precedes it.
pub open spec fn gathered_ordered(s: Seq<ContextUnit>) -> bool {
    forall|p: int, q: int| 0 <= p < q < s.len() ==> !gathered_before(#[trigger] s[q], #[trigger] s[p])
}

/// Ordering gathered units keeps every unit, each as often as before,
/// direct matches first and otherwise by id.
pub proof fn law_sorted_gathered_is_ordered_permutation(s: Seq<ContextUnit>)
    ensures
        sorted_gathered(s).to_multiset() == s.to_multiset(),
        gathered_ordered(sorted_gathered(s)),
    decreases s.len(),
{
    if s.len() == 0 {
        assert(sorted_gathered(s) =~= s);
    } else {
        let o = sorted_gathered(s.drop_last());
        let x = s.last();
        law_sorted_gathered_is_ordered_permutation(s.drop_last());
        lemma_gathered_insert_pos_props(o, x, 0);
        let p = gathered_insert_pos(o, x, 0);
        let t = o.insert(p, x);
        vstd::seq_lib::to_multiset_insert(o, p, x);
        assert(s =~= s.drop_last().push(x));
        vstd::seq_lib::to_multiset_build(s.drop_last(), x);
        assert forall|a: int, b: int| 0 <= a < b < t.len() implies !gathered_before(
            #[trigger] t[b],
            #[trigger] t[a],
        ) by {
            if b < p {
                assert(t[b] == o[b] && t[a] == o[a]);
            } else if b == p {
                assert(t[a] == o[a]);
            } else {
                assert(t[b] == o[b - 1]);
                if a < p {
                    assert(t[a] == o[a]);
                } else if a == p {
                    if gathered_before(o[b - 1], x) {
                        lemma_gathered_before_transitive(o[b - 1], x, o[p]);
                        text::law_lex_order_strict_total(o[p].id@, o[p].id@);
                    }
                } else {
                    assert(t[a] == o[a - 1]);
                }
            }
        }
    }
}

fn gathered_before_exec(x: &ContextUnit, e: &ContextUnit) -> (r: bool)
    ensures
        r == gathered_before(*x, *e),
{
    if x.is_direct_match && !e.is_direct_match {
        true
    } else if x.is_direct_match == e.is_direct_match {
        lex_lt_exec(&chars_of(x.id.as_str()), &chars_of(e.id.as_str()))
    } else {
        false
    }
}

/// Gathered units in answer order: direct matches first, then by id.
pub fn order_gathered(units: Vec<ContextUnit>) -> (r: Vec<ContextUnit>)
    ensures
        r@ == sorted_gathered(units@),
        r@.to_multiset() == units@.to_multiset(),
        gathered_ordered(r@),
{
    proof {
        law_sorted_gathered_is_ordered_permutation(units@);
    }
    let ghost s0 = units@;
    assert(s0.len() == units.len());
    let mut rest = units;
    let mut sorted: Vec<ContextUnit> = Vec::new();
    let mut i: usize = 0;
    assert(sorted@ =~= sorted_gathered(s0.take(0)));
    while rest.len() > 0
        invariant
            i <= s0.len(),
            s0.len() <= usize::MAX,
            rest@ == s0.subrange(i as int, s0.len() as int),
            sorted@ == sorted_gathered(s0.take(i as int)),
        decreases rest@.len(),
    {
        let x = rest.remove(0);
        let ghost ss = sorted@;
        proof {
            lemma_gathered_insert_pos_bounds(ss, x, 0);
        }
        let mut p: usize = 0;
        while p < sorted.len() && !gathered_before_exec(&x, &sorted[p])
            invariant
                p <= sorted@.len(),
                ss == sorted@,
                gathered_insert_pos(ss, x, p as int) == gathered_insert_pos(ss, x, 0),
            decreases sorted@.len() - p,
        {
            p = p + 1;
        }
        sorted.insert(p, x);
        proof {
            let t = s0.take(i + 1);
            assert(t.drop_last() =~= s0.take(i as int));
            assert(t.last() == x);
        }
        i = i + 1;
        proof {
            assert(rest@ =~= s0.subrange(i as int, s0.len() as int));
        }
    }
    assert(s0.take(i as int) =~= s0);
    sorted
}

} // verus!
