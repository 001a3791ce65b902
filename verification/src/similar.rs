//! Text signals behind `simaris similar`: the first-line preview, the
//! frontmatter-stripped word-token set, and the set overlaps from which the
//! Jaccard indices are formed (`|A ∩ B| / |A ∪ B|`, 0 when both are empty).
//! The weighted float score and the ranking over store contents are
//! computed by the binary.
use vstd::prelude::*;
use crate::text;
use crate::text::{chars_of, copy_range, find_exec, first_line_exec, lit, starts_with_exec, string_of, take_chars_exec};
use crate::wordset;
use crate::wordset::{add_word_exec, dedup_words, overlap_counts_exec};

verus! {

broadcast use vstd::string::group_string_axioms;

/// Characters kept in a preview.
pub const PREVIEW_CHARS: usize = 80;

/// First line of `c`, cut to 80 characters.
pub open spec fn preview_spec(c: Seq<char>) -> Seq<char> {
    text::take_chars(text::first_line(c), 80)
}

/// First-line preview (at most 80 characters).
pub fn content_preview(content: &str) -> (r: String)
    ensures
        r@ == preview_spec(content@),
{
    let c = chars_of(content);
    let l = first_line_exec(&c);
    string_of(take_chars_exec(&l, PREVIEW_CHARS).as_slice())
}

// ---------------------------------------------------------------------------
// Frontmatter stripping
// ---------------------------------------------------------------------------

/// End of the run of byte-order marks starting at `i`.
pub open spec fn bom_end(s: Seq<char>, i: int) -> int
    decreases s.len() - i,
{
    if 0 <= i < s.len() && s[i] == '\u{feff}' {
        bom_end(s, i + 1)
    } else {
        i
    }
}

proof fn lemma_bom_end_bounds(s: Seq<char>, i: int)
    requires
        0 <= i <= s.len(),
    ensures
        i <= bom_end(s, i) <= s.len(),
    decreases s.len() - i,
{
    if i < s.len() && s[i] == '\u{feff}' {
        lemma_bom_end_bounds(s, i + 1);
    }
}

/// Content with leading byte-order marks removed and, when it then starts
/// with `---`, everything up to the next `\n---` and one newline after it.
pub open spec fn strip_fm_spec(s: Seq<char>) -> Seq<char> {
    let t = s.skip(bom_end(s, 0));
    if text::starts_with(t, seq!['-', '-', '-']) {
        let rest = t.skip(3);
        match text::find(rest, seq!['\n', '-', '-', '-']) {
            Some(e) => {
                let after = rest.skip(e + 4);
                if after.len() > 0 && after[0] == '\n' {
                    after.skip(1)
                } else {
                    after
                }
            },
            None => t,
        }
    } else {
        t
    }
}

fn strip_fm_chars(c: &Vec<char>) -> (r: Vec<char>)
    ensures
        r@ == strip_fm_spec(c@),
{
    proof { lemma_bom_end_bounds(c@, 0); }
    let mut b: usize = 0;
    while b < c.len() && c[b] == '\u{feff}'
        invariant
            b <= c@.len(),
            bom_end(c@, b as int) == bom_end(c@, 0),
        decreases c@.len() - b,
    {
        b = b + 1;
    }
    let t = copy_range(c, b, c.len());
    assert(t@ =~= c@.skip(b as int));
    let dashes: Vec<char> = vec!['-', '-', '-'];
    assert(dashes@ =~= seq!['-', '-', '-']);
    if !starts_with_exec(&t, &dashes) {
        return t;
    }
    let rest = copy_range(&t, 3, t.len());
    assert(rest@ =~= t@.skip(3));
    let close: Vec<char> = vec!['\n', '-', '-', '-'];
    assert(close@ =~= seq!['\n', '-', '-', '-']);
    match find_exec(&rest, &close) {
        Some(e) => {
            proof { text::lemma_find_from_bounds(rest@, close@, 0); }
            let after = copy_range(&rest, e + 4, rest.len());
            assert(after@ =~= rest@.skip(e + 4));
            if after.len() > 0 && after[0] == '\n' {
                let r = copy_range(&after, 1, after.len());
                assert(r@ =~= after@.skip(1));
                r
            } else {
                after
            }
        },
        None => t,
    }
}

/// Strip a leading YAML frontmatter block delimited by `---` … `---`.
/// Returns the input (without leading byte-order marks) when no block is
/// present.
pub fn strip_leading_frontmatter(s: &str) -> (r: String)
    ensures
        r@ == strip_fm_spec(s@),
{
    let c = chars_of(s);
    string_of(strip_fm_chars(&c).as_slice())
}

// ---------------------------------------------------------------------------
// Content tokens
// ---------------------------------------------------------------------------

/// ASCII lowercase of one character.
pub open spec fn ascii_lower(c: char) -> char {
    if 'A' <= c && c <= 'Z' {
        ((c as u32) + 32) as char
    } else {
        c
    }
}

/// Characters that make up a content token: `[a-z0-9_]` after folding.
pub open spec fn is_token_char(c: char) -> bool {
    ('a' <= c && c <= 'z') || ('A' <= c && c <= 'Z') || ('0' <= c && c <= '9') || c == '_'
}

/// Token set of `b` scanned from `i`, with run `cur` in progress and
/// tokens `acc` collected: runs of token characters (ASCII-lowercased) of
/// at least three characters, each kept once.
pub open spec fn tokens_from(b: Seq<char>, i: int, cur: Seq<char>, acc: Seq<Seq<char>>) -> Seq<Seq<char>>
    decreases b.len() - i,
{
    if i < 0 || i >= b.len() {
        if cur.len() >= 3 {
            wordset::add_word(acc, cur)
        } else {
            acc
        }
    } else if is_token_char(b[i]) {
        tokens_from(b, i + 1, cur.push(ascii_lower(b[i])), acc)
    } else {
        tokens_from(b, i + 1, Seq::empty(), if cur.len() >= 3 {
            wordset::add_word(acc, cur)
        } else {
            acc
        })
    }
}

/// The content-token set of a unit body (frontmatter stripped).
pub open spec fn content_tokens_spec(s: Seq<char>) -> Seq<Seq<char>> {
    tokens_from(strip_fm_spec(s), 0, Seq::empty(), Seq::empty())
}

pub(crate) fn ascii_lower_exec(c: char) -> (r: char)
    ensures
        r == ascii_lower(c),
{
    if 'A' <= c && c <= 'Z' {
        let u: u32 = (c as u32) + 32;
        assert(u < 0xD800);
        char_from_small(u)
    } else {
        c
    }
}

/// The character with code point `u` (below the surrogate range).
#[verifier::external_body]
fn char_from_small(u: u32) -> (r: char)
    requires
        u < 0xD800,
    ensures
        r == u as char,
{
    char::from_u32(u).unwrap()
}

/// Lower-case word-token set for content-overlap Jaccard: `[a-z0-9_]+` runs
/// of length ≥ 3 after frontmatter strip, each once, in order of first
/// appearance.
pub fn content_tokens(s: &str) -> (r: Vec<String>)
    ensures
        r@.map_values(|t: String| t@) == content_tokens_spec(s@),
{
    let c = chars_of(s);
    let b = strip_fm_chars(&c);
    let toks = content_token_chars(&b);
    let mut out: Vec<String> = Vec::new();
    let mut i: usize = 0;
    while i < toks.len()
        invariant
            i <= toks@.len(),
            out@.len() == i,
            forall|k: int| 0 <= k < i ==> #[trigger] out@[k]@ == toks@[k]@,
        decreases toks@.len() - i,
    {
        out.push(string_of(toks[i].as_slice()));
        i = i + 1;
    }
    assert(out@.map_values(|t: String| t@) =~= text::views(toks@));
    out
}

/// Token set of already-stripped content, as character vectors.
pub fn content_token_chars(b: &Vec<char>) -> (r: Vec<Vec<char>>)
    ensures
        text::views(r@) == tokens_from(b@, 0, Seq::empty(), Seq::empty()),
{
    let mut acc: Vec<Vec<char>> = Vec::new();
    let mut cur: Vec<char> = Vec::new();
    let mut i: usize = 0;
    assert(text::views(acc@) =~= Seq::<Seq<char>>::empty());
    while i < b.len()
        invariant
            i <= b@.len(),
            tokens_from(b@, i as int, cur@, text::views(acc@)) == tokens_from(b@, 0, Seq::empty(), Seq::empty()),
        decreases b@.len() - i,
    {
        let ch = b[i];
        if ('a' <= ch && ch <= 'z') || ('A' <= ch && ch <= 'Z') || ('0' <= ch && ch <= '9') || ch == '_' {
            cur.push(ascii_lower_exec(ch));
        } else {
            if cur.len() >= 3 {
                add_word_exec(&mut acc, cur);
            }
            cur = Vec::new();
        }
        i = i + 1;
    }
    if cur.len() >= 3 {
        add_word_exec(&mut acc, cur);
    }
    acc
}

proof fn lemma_tokens_from_len(b: Seq<char>, i: int, cur: Seq<char>, acc: Seq<Seq<char>>)
    requires
        0 <= i <= b.len(),
    ensures
        tokens_from(b, i, cur, acc).len() <= acc.len() + cur.len() + (b.len() - i),
    decreases b.len() - i,
{
    if i >= b.len() {
    } else if is_token_char(b[i]) {
        lemma_tokens_from_len(b, i + 1, cur.push(ascii_lower(b[i])), acc);
    } else {
        let acc2 = if cur.len() >= 3 { wordset::add_word(acc, cur) } else { acc };
        lemma_tokens_from_len(b, i + 1, Seq::empty(), acc2);
    }
}

proof fn lemma_token_count_le(b: Seq<char>)
    ensures
        tokens_from(b, 0, Seq::empty(), Seq::empty()).len() <= b.len(),
{
    lemma_tokens_from_len(b, 0, Seq::empty(), Seq::empty());
}

proof fn lemma_strip_fm_len(s: Seq<char>)
    ensures
        strip_fm_spec(s).len() <= s.len(),
{
    lemma_bom_end_bounds(s, 0);
    let t = s.skip(bom_end(s, 0));
    if text::starts_with(t, seq!['-', '-', '-']) {
        let rest = t.skip(3);
        text::lemma_find_from_bounds(rest, seq!['\n', '-', '-', '-'], 0);
    }
}

/// Intersection and union sizes of the content-token sets of two bodies;
/// the content-overlap Jaccard index is their ratio (0 when the union is
/// empty).
pub open spec fn content_overlap_spec(a: Seq<char>, b: Seq<char>) -> (nat, nat) {
    wordset::overlap_counts(content_tokens_spec(a), content_tokens_spec(b))
}

/// Intersection and union sizes of the content-token sets of two bodies.
pub fn content_overlap_counts(a: &str, b: &str) -> (r: (usize, usize))
    requires
        a@.len() + b@.len() <= usize::MAX,
    ensures
        r.0 == content_overlap_spec(a@, b@).0,
        r.1 == content_overlap_spec(a@, b@).1,
{
    let ca = chars_of(a);
    let cb = chars_of(b);
    let ta = content_token_chars(&strip_fm_chars(&ca));
    let tb = content_token_chars(&strip_fm_chars(&cb));
    proof {
        lemma_token_count_le(strip_fm_spec(a@));
        lemma_token_count_le(strip_fm_spec(b@));
        lemma_strip_fm_len(a@);
        lemma_strip_fm_len(b@);
    }
    overlap_counts_exec(&ta, &tb)
}

// ---------------------------------------------------------------------------
// Tag overlap
// ---------------------------------------------------------------------------

/// Intersection and union sizes of two tag lists read as sets
/// (case-sensitive); the tag-overlap Jaccard index is their ratio.
pub open spec fn tag_overlap_spec(a: Seq<Seq<char>>, b: Seq<Seq<char>>) -> (nat, nat) {
    wordset::overlap_counts(wordset::dedup(a), wordset::dedup(b))
}

fn strings_to_chars(v: &Vec<String>) -> (r: Vec<Vec<char>>)
    ensures
        text::views(r@) == v@.map_values(|t: String| t@),
{
    let mut out: Vec<Vec<char>> = Vec::new();
    let mut i: usize = 0;
    while i < v.len()
        invariant
            i <= v@.len(),
            out@.len() == i,
            forall|k: int| 0 <= k < i ==> #[trigger] out@[k]@ == v@[k]@,
        decreases v@.len() - i,
    {
        out.push(chars_of(v[i].as_str()));
        i = i + 1;
    }
    assert(text::views(out@) =~= v@.map_values(|t: String| t@));
    out
}

/// Intersection and union sizes of two tag lists read as sets.
pub fn tag_overlap_counts(a: &Vec<String>, b: &Vec<String>) -> (r: (usize, usize))
    requires
        a@.len() + b@.len() <= usize::MAX,
    ensures
        r.0 == tag_overlap_spec(a@.map_values(|t: String| t@), b@.map_values(|t: String| t@)).0,
        r.1 == tag_overlap_spec(a@.map_values(|t: String| t@), b@.map_values(|t: String| t@)).1,
{
    let da = dedup_words(&strings_to_chars(a));
    let db = dedup_words(&strings_to_chars(b));
    proof {
        wordset::lemma_dedup_props(a@.map_values(|t: String| t@));
        wordset::lemma_dedup_props(b@.map_values(|t: String| t@));
    }
    overlap_counts_exec(&da, &db)
}

} // verus!
