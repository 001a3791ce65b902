//! Text derived from unit content for display: headlines, previews, short
//! ids and truncation. Printing itself is done by the binary.
use vstd::prelude::*;
use crate::text;
use crate::text::{take_chars_exec, append_chars, chars_of, copy_range, lines_of, lit, string_of, trim_chars};
use crate::frontmatter;
use crate::frontmatter::{parse_chars, yaml_field};
use crate::model::LinkedUnit;

verus! {

broadcast use vstd::string::group_string_axioms;

/// Display options for showing one unit.
#[derive(Default, Clone, Copy, Debug)]
pub struct ShowOpts {
    /// Output as JSON.
    pub json: bool,
    /// Print content verbatim — skip frontmatter parsing/rendering.
    pub raw: bool,
    /// Print only the content, omit metadata and links.
    pub content_only: bool,
    /// Strip YAML frontmatter from the printed content.
    pub no_frontmatter: bool,
}

/// Short UUID for human-readable display: its first 8 characters (all of
/// it when shorter). Unit ids are ASCII UUIDs, for which characters and
/// bytes coincide.
pub fn short_id(id: &str) -> (r: String)
    ensures
        r@ == text::take_chars(id@, 8),
{
    let c = chars_of(id);
    string_of(take_chars_exec(&c, 8).as_slice())
}

/// `s` cut to `max` characters plus `suffix` when it is longer than `max`.
pub open spec fn cut_with(s: Seq<char>, max: int, suffix: Seq<char>) -> Seq<char> {
    if s.len() > max {
        s.take(max) + suffix
    } else {
        s
    }
}

fn cut_with_exec(v: &Vec<char>, max: usize, suffix: &Vec<char>) -> (r: Vec<char>)
    ensures
        r@ == cut_with(v@, max as int, suffix@),
{
    if v.len() > max {
        let mut out = copy_range(v, 0, max);
        append_chars(&mut out, suffix);
        assert(v@.subrange(0, max as int) =~= v@.take(max as int));
        out
    } else {
        v.clone()
    }
}

/// The first line from index `i` that is non-empty after trimming, trimmed.
pub open spec fn first_nonblank_from(ls: Seq<Seq<char>>, i: int) -> Seq<char>
    decreases ls.len() - i,
{
    if i < 0 || i >= ls.len() {
        Seq::empty()
    } else if text::trim(ls[i]).len() > 0 {
        text::trim(ls[i])
    } else {
        first_nonblank_from(ls, i + 1)
    }
}

pub(crate) fn first_nonblank(v: &Vec<char>) -> (r: Vec<char>)
    ensures
        r@ == first_nonblank_from(text::lines(v@), 0),
{
    let ls = lines_of(v);
    let ghost lv = text::views(ls@);
    let mut i: usize = 0;
    while i < ls.len()
        invariant
            i <= ls@.len(),
            lv == text::views(ls@),
            lv == text::lines(v@),
            first_nonblank_from(lv, i as int) == first_nonblank_from(lv, 0),
        decreases ls@.len() - i,
    {
        assert(lv[i as int] == ls@[i as int]@);
        let t = trim_chars(&ls[i]);
        if t.len() > 0 {
            return t;
        }
        i = i + 1;
    }
    Vec::new()
}

/// The first frontmatter key among `role`, `scope`, `trigger`, `context`,
/// `tension` whose value is a non-empty string, and that value.
pub open spec fn fm_fallback(y: Seq<char>) -> Seq<char> {
    if nonempty_field(y, "role"@) is Some {
        nonempty_field(y, "role"@)->0
    } else if nonempty_field(y, "scope"@) is Some {
        nonempty_field(y, "scope"@)->0
    } else if nonempty_field(y, "trigger"@) is Some {
        nonempty_field(y, "trigger"@)->0
    } else if nonempty_field(y, "context"@) is Some {
        nonempty_field(y, "context"@)->0
    } else if nonempty_field(y, "tension"@) is Some {
        nonempty_field(y, "tension"@)->0
    } else {
        Seq::empty()
    }
}

/// A top-level frontmatter string value that is non-empty.
pub open spec fn nonempty_field(y: Seq<char>, key: Seq<char>) -> Option<Seq<char>> {
    match frontmatter::yaml_string_field(y, key) {
        Some(s) => if s.len() > 0 {
            Some(s)
        } else {
            None
        },
        None => None,
    }
}

fn fm_fallback_exec(y: &Vec<char>) -> (r: Vec<char>)
    ensures
        r@ == fm_fallback(y@),
{
    if let Some(s) = yaml_field(y, &lit("role")) {
        if s.len() > 0 {
            return s;
        }
    }
    if let Some(s) = yaml_field(y, &lit("scope")) {
        if s.len() > 0 {
            return s;
        }
    }
    if let Some(s) = yaml_field(y, &lit("trigger")) {
        if s.len() > 0 {
            return s;
        }
    }
    if let Some(s) = yaml_field(y, &lit("context")) {
        if s.len() > 0 {
            return s;
        }
    }
    if let Some(s) = yaml_field(y, &lit("tension")) {
        if s.len() > 0 {
            return s;
        }
    }
    Vec::new()
}

/// Headline of a unit: first non-empty trimmed line of the body (of the
/// content itself when there is no frontmatter); when that is empty, the
/// first non-empty frontmatter value among role/scope/trigger/context/
/// tension; cut at 120 characters with `...` appended when longer.
pub open spec fn headline_spec(c: Seq<char>) -> Seq<char> {
    let p = frontmatter::parse_spec(c);
    let src = if p.0 is Some {
        p.1
    } else {
        c
    };
    let first = first_nonblank_from(text::lines(src), 0);
    let pick = if first.len() == 0 {
        match p.0 {
            Some(y) => fm_fallback(y),
            None => Seq::empty(),
        }
    } else {
        first
    };
    cut_with(pick, 120, "..."@)
}

/// Headline for lean list/search rows.
pub fn derive_headline(content: &str) -> (r: String)
    ensures
        r@ == headline_spec(content@),
{
    let c = chars_of(content);
    let (fm, body) = parse_chars(&c);
    let first = if fm.is_some() {
        first_nonblank(&body)
    } else {
        first_nonblank(&c)
    };
    let pick = if first.len() == 0 {
        match &fm {
            Some(y) => fm_fallback_exec(y),
            None => Vec::new(),
        }
    } else {
        first
    };
    string_of(cut_with_exec(&pick, 120, &lit("...")).as_slice())
}

/// End of the run of `#` characters starting at `i`.
pub open spec fn hash_end(s: Seq<char>, i: int) -> int
    decreases s.len() - i,
{
    if 0 <= i < s.len() && s[i] == '#' {
        hash_end(s, i + 1)
    } else {
        i
    }
}

proof fn lemma_hash_end_bounds(s: Seq<char>, i: int)
    requires
        0 <= i <= s.len(),
    ensures
        i <= hash_end(s, i) <= s.len(),
    decreases s.len() - i,
{
    if i < s.len() && s[i] == '#' {
        lemma_hash_end_bounds(s, i + 1);
    }
}

/// LOD-1 preview: first non-empty body line (frontmatter skipped), leading
/// `#` marks removed, trimmed, cut at 80 characters with `…` appended.
pub open spec fn line_preview_spec(c: Seq<char>) -> Seq<char> {
    let raw = first_nonblank_from(text::lines(frontmatter::parse_spec(c).1), 0);
    let t = text::trim(raw.skip(hash_end(raw, 0)));
    cut_with(t, 80, "…"@)
}

/// First non-empty line of a unit's body, stripped of header marks.
pub fn first_line_preview(content: &str) -> (r: String)
    ensures
        r@ == line_preview_spec(content@),
{
    let c = chars_of(content);
    let (_fm, body) = parse_chars(&c);
    let raw = first_nonblank(&body);
    proof { lemma_hash_end_bounds(raw@, 0); }
    let mut k: usize = 0;
    while k < raw.len() && raw[k] == '#'
        invariant
            k <= raw@.len(),
            hash_end(raw@, k as int) == hash_end(raw@, 0),
        decreases raw@.len() - k,
    {
        k = k + 1;
    }
    let rest = copy_range(&raw, k, raw.len());
    assert(rest@ =~= raw@.skip(k as int));
    let t = trim_chars(&rest);
    string_of(cut_with_exec(&t, 80, &lit("…")).as_slice())
}

/// Content cut at 80 characters with `...` appended when longer.
pub fn truncate_content(content: &str) -> (r: String)
    ensures
        r@ == cut_with(content@, 80, "..."@),
{
    let c = chars_of(content);
    string_of(cut_with_exec(&c, 80, &lit("...")).as_slice())
}

/// `s` unchanged when it has at most `max` characters, else its first
/// `max - 1` characters (none when `max` is 0) followed by `…`.
pub open spec fn truncate_owner_spec(s: Seq<char>, max: int) -> Seq<char> {
    if s.len() <= max {
        s
    } else {
        s.take(if max >= 1 { max - 1 } else { 0 }) + "…"@
    }
}

/// Truncate an owner column without splitting a character.
pub fn truncate_owner(s: &str, max: usize) -> (r: String)
    ensures
        r@ == truncate_owner_spec(s@, max as int),
{
    let c = chars_of(s);
    if c.len() <= max {
        return string_of(c.as_slice());
    }
    let n = if max >= 1 { max - 1 } else { 0 };
    let mut out = copy_range(&c, 0, n);
    append_chars(&mut out, &lit("…"));
    assert(c@.subrange(0, n as int) =~= c@.take(n as int));
    string_of(out.as_slice())
}

/// Identifying text for a relationship row: the slug when present, else the
/// linked unit's headline (possibly empty).
pub fn identifying_text(l: &LinkedUnit) -> (r: String)
    ensures
        r@ == (match l.slug {
            Some(s) => s@,
            None => l.headline@,
        }),
{
    match &l.slug {
        Some(slug) => slug.clone(),
        None => l.headline.clone(),
    }
}

} // verus!
