//! Read-only audit of the store for rot: procedures without a trigger,
//! orphans, near-duplicate bodies, fragmented tags, and the roll-up of
//! findings by owning aspect.
use vstd::prelude::*;
use crate::text;
use crate::text::{append_chars, chars_eq, chars_of, lex_lt_exec, lines_of, lit, starts_with_exec, string_of, trim_chars, trim_start_chars};
use crate::frontmatter;
use crate::frontmatter::{parse_chars, yaml_field};
use crate::tag_guard;
use crate::tag_guard::to_lowercase;
use crate::wordset;
use crate::wordset::dedup_words;
use crate::display;
use crate::display::derive_headline;
use crate::model::UnitCore;

verus! {

broadcast use vstd::string::group_string_axioms;

// ---------------------------------------------------------------------------
// Character classes through std
// ---------------------------------------------------------------------------

/// What `char::is_alphanumeric` returns (Unicode Alphabetic or Numeric).
pub uninterp spec fn alphanumeric(c: char) -> bool;

/// `char::is_alphanumeric`. The contract only names the result: the
/// Unicode property tables are left to std.
#[verifier::external_body]
pub(crate) fn is_alnum(c: char) -> (r: bool)
    ensures
        r == alphanumeric(c),
{
    c.is_alphanumeric()
}

/// What `char::to_lowercase` yields for one character (one or more
/// characters).
pub uninterp spec fn char_lowercase(c: char) -> Seq<char>;

/// `char::to_lowercase`, collected. The contract only names the result:
/// the Unicode case tables are left to std.
#[verifier::external_body]
fn lower_char(c: char) -> (r: Vec<char>)
    ensures
        r@ == char_lowercase(c),
{
    c.to_lowercase().collect()
}

// ---------------------------------------------------------------------------
// Word tokens and shingles
// ---------------------------------------------------------------------------

/// Characters that separate words: neither alphanumeric nor an apostrophe.
pub open spec fn is_sep(c: char) -> bool {
    !alphanumeric(c) && c != '\''
}

/// Words of `s` scanned from `i` (run `cur` in progress, words `acc`
/// collected): maximal runs of non-separators, each lowercased.
pub open spec fn words_from(s: Seq<char>, i: int, cur: Seq<char>, acc: Seq<Seq<char>>) -> Seq<Seq<char>>
    decreases s.len() - i,
{
    if i < 0 || i >= s.len() {
        if cur.len() > 0 {
            acc.push(tag_guard::lowercase(cur))
        } else {
            acc
        }
    } else if is_sep(s[i]) {
        words_from(
            s,
            i + 1,
            Seq::empty(),
            if cur.len() > 0 {
                acc.push(tag_guard::lowercase(cur))
            } else {
                acc
            },
        )
    } else {
        words_from(s, i + 1, cur.push(s[i]), acc)
    }
}

/// Lowercased word tokens, splitting on runs of characters that are
/// neither alphanumeric nor an apostrophe.
pub open spec fn tokens_spec(s: Seq<char>) -> Seq<Seq<char>> {
    words_from(s, 0, Seq::empty(), Seq::empty())
}

proof fn lemma_words_from_len(s: Seq<char>, i: int, cur: Seq<char>, acc: Seq<Seq<char>>)
    requires
        0 <= i <= s.len(),
    ensures
        words_from(s, i, cur, acc).len() <= acc.len() + cur.len() + (s.len() - i),
    decreases s.len() - i,
{
    if i < s.len() {
        if is_sep(s[i]) {
            let acc2 = if cur.len() > 0 {
                acc.push(tag_guard::lowercase(cur))
            } else {
                acc
            };
            lemma_words_from_len(s, i + 1, Seq::empty(), acc2);
        } else {
            lemma_words_from_len(s, i + 1, cur.push(s[i]), acc);
        }
    }
}

/// No more shingles than characters.
pub proof fn lemma_shingles_len(s: Seq<char>)
    ensures
        shingles_spec(s).len() <= s.len(),
{
    lemma_words_from_len(s, 0, Seq::empty(), Seq::empty());
    let t = tokens_spec(s);
    if t.len() < 3 {
        wordset::lemma_dedup_props(t);
    } else {
        wordset::lemma_dedup_props(
            Seq::new((t.len() - 2) as nat, |i: int| shingle(t[i], t[i + 1], t[i + 2])),
        );
    }
}

fn token_chars(s: &Vec<char>) -> (r: Vec<Vec<char>>)
    ensures
        text::views(r@) == tokens_spec(s@),
{
    let mut acc: Vec<Vec<char>> = Vec::new();
    let mut cur: Vec<char> = Vec::new();
    let mut i: usize = 0;
    assert(text::views(acc@) =~= Seq::<Seq<char>>::empty());
    while i < s.len()
        invariant
            i <= s@.len(),
            words_from(s@, i as int, cur@, text::views(acc@)) == tokens_spec(s@),
        decreases s@.len() - i,
    {
        let c = s[i];
        if !is_alnum(c) && c != '\'' {
            if cur.len() > 0 {
                let w = chars_of(to_lowercase(string_of(cur.as_slice()).as_str()).as_str());
                let ghost prev = text::views(acc@);
                acc.push(w);
                assert(text::views(acc@) =~= prev.push(tag_guard::lowercase(cur@)));
            }
            cur = Vec::new();
        } else {
            cur.push(c);
        }
        i = i + 1;
    }
    if cur.len() > 0 {
        let w = chars_of(to_lowercase(string_of(cur.as_slice()).as_str()).as_str());
        let ghost prev = text::views(acc@);
        acc.push(w);
        assert(text::views(acc@) =~= prev.push(tag_guard::lowercase(cur@)));
    }
    acc
}

fn strings_of(v: &Vec<Vec<char>>) -> (r: Vec<String>)
    ensures
        r@.map_values(|t: String| t@) == text::views(v@),
{
    let mut out: Vec<String> = Vec::new();
    let mut i: usize = 0;
    while i < v.len()
        invariant
            i <= v@.len(),
            out@.len() == i,
            forall|k: int| 0 <= k < i ==> #[trigger] out@[k]@ == v@[k]@,
        decreases v@.len() - i,
    {
        out.push(string_of(v[i].as_slice()));
        i = i + 1;
    }
    assert(out@.map_values(|t: String| t@) =~= text::views(v@));
    out
}

/// Lowercased word tokens of `s`; apostrophes stay inside words.
pub fn tokens(s: &str) -> (r: Vec<String>)
    ensures
        r@.map_values(|t: String| t@) == tokens_spec(s@),
{
    let c = chars_of(s);
    let t = token_chars(&c);
    strings_of(&t)
}

/// `a|b|c` for three consecutive words.
pub open spec fn shingle(a: Seq<char>, b: Seq<char>, c: Seq<char>) -> Seq<char> {
    a + seq!['|'] + b + seq!['|'] + c
}

/// The distinct 3-word shingles of the content (in order of first
/// appearance), or its distinct words when it has fewer than three.
pub open spec fn shingles_spec(s: Seq<char>) -> Seq<Seq<char>> {
    let t = tokens_spec(s);
    if t.len() < 3 {
        wordset::dedup(t)
    } else {
        wordset::dedup(
            Seq::new((t.len() - 2) as nat, |i: int| shingle(t[i], t[i + 1], t[i + 2])),
        )
    }
}

/// Shingle set of a unit's content: 3-grams of word tokens joined with
/// `|`, falling back to single words when there are fewer than three.
/// Each member appears once.
pub fn shingles_3(content: &str) -> (r: Vec<String>)
    ensures
        r@.map_values(|t: String| t@) == shingles_spec(content@),
{
    let c = chars_of(content);
    let t = token_chars(&c);
    let ghost tv = text::views(t@);
    if t.len() < 3 {
        let d = dedup_words(&t);
        return strings_of(&d);
    }
    let bar = lit("|");
    proof {
        reveal_strlit("|");
        assert(bar@ =~= seq!['|']);
    }
    let mut grams: Vec<Vec<char>> = Vec::new();
    let mut i: usize = 0;
    let end = t.len() - 2;
    while i < end
        invariant
            end == t@.len() - 2,
            t@.len() >= 3,
            tv == text::views(t@),
            i <= t@.len() - 2,
            bar@ == seq!['|'],
            grams@.len() == i,
            forall|k: int| 0 <= k < i ==> #[trigger] grams@[k]@ == shingle(tv[k], tv[k + 1], tv[k + 2]),
        decreases t@.len() - i,
    {
        let mut g: Vec<char> = Vec::new();
        append_chars(&mut g, &t[i]);
        append_chars(&mut g, &bar);
        append_chars(&mut g, &t[i + 1]);
        append_chars(&mut g, &bar);
        append_chars(&mut g, &t[i + 2]);
        proof {
            assert(g@ =~= shingle(tv[i as int], tv[i + 1], tv[i + 2]));
        }
        grams.push(g);
        i = i + 1;
    }
    proof {
        assert(text::views(grams@) =~= Seq::new(
            (tv.len() - 2) as nat,
            |k: int| shingle(tv[k], tv[k + 1], tv[k + 2]),
        ));
    }
    let d = dedup_words(&grams);
    strings_of(&d)
}

/// Sizes of the intersection and the union of two shingle sets (each
/// duplicate-free); the similarity is their ratio, 0 for two empty sets.
pub fn shingle_overlap(a: &Vec<String>, b: &Vec<String>) -> (r: (usize, usize))
    requires
        a@.len() + b@.len() <= usize::MAX,
    ensures
        r.0 as nat == wordset::count_common(
            a@.map_values(|t: String| t@),
            b@.map_values(|t: String| t@),
        ),
        r.1 as nat == a@.len() + b@.len() - r.0,
{
    let mut av: Vec<Vec<char>> = Vec::new();
    let mut i: usize = 0;
    while i < a.len()
        invariant
            i <= a@.len(),
            av@.len() == i,
            forall|k: int| 0 <= k < i ==> #[trigger] av@[k]@ == a@[k]@,
        decreases a@.len() - i,
    {
        av.push(chars_of(a[i].as_str()));
        i = i + 1;
    }
    let mut bv: Vec<Vec<char>> = Vec::new();
    let mut j: usize = 0;
    while j < b.len()
        invariant
            j <= b@.len(),
            bv@.len() == j,
            forall|k: int| 0 <= k < j ==> #[trigger] bv@[k]@ == b@[k]@,
        decreases b@.len() - j,
    {
        bv.push(chars_of(b[j].as_str()));
        j = j + 1;
    }
    assert(text::views(av@) =~= a@.map_values(|t: String| t@));
    assert(text::views(bv@) =~= b@.map_values(|t: String| t@));
    let inter = wordset::count_common_exec(&av, &bv);
    proof {
        wordset::lemma_count_common_le(text::views(av@), text::views(bv@));
    }
    (inter, a.len() + b.len() - inter)
}

// ---------------------------------------------------------------------------
// Trigger detection
// ---------------------------------------------------------------------------

/// `s` with every leading copy of `p` removed (`str::trim_start_matches`).
pub open spec fn strip_all(s: Seq<char>, p: Seq<char>) -> Seq<char>
    decreases s.len(),
{
    if p.len() > 0 && text::starts_with(s, p) {
        strip_all(s.skip(p.len() as int), p)
    } else {
        s
    }
}

pub open spec fn trigger_key() -> Seq<char> {
    seq!['t', 'r', 'i', 'g', 'g', 'e', 'r']
}

pub open spec fn trigger_prefix() -> Seq<char> {
    trigger_key().push(':')
}

/// A body line that declares a trigger: after leading whitespace it starts
/// with `trigger:`, and after every leading `trigger:` and then every
/// leading `:` something other than whitespace is left.
pub open spec fn body_trigger(line: Seq<char>) -> bool {
    let t = text::trim_start(line);
    text::starts_with(t, trigger_prefix()) && text::trim(
        strip_all(strip_all(t, trigger_prefix()), seq![':']),
    ).len() > 0
}

/// The content declares a trigger: a non-blank `trigger` string in the
/// frontmatter, or a body line that declares one.
pub open spec fn has_trigger_spec(c: Seq<char>) -> bool {
    let (fm, body) = frontmatter::parse_spec(c);
    ||| (fm matches Some(y) && frontmatter::yaml_string_field(y, trigger_key()) matches Some(v)
        && text::trim(v).len() > 0)
    ||| exists|i: int| 0 <= i < text::lines(body).len() && #[trigger] body_trigger(text::lines(body)[i])
}

fn strip_all_exec(v: &Vec<char>, p: &Vec<char>) -> (r: Vec<char>)
    ensures
        r@ == strip_all(v@, p@),
{
    let mut cur = v.clone();
    if p.len() == 0 {
        return cur;
    }
    while starts_with_exec(&cur, p)
        invariant
            p@.len() > 0,
            strip_all(cur@, p@) == strip_all(v@, p@),
        decreases cur@.len(),
    {
        let prev = cur;
        cur = text::copy_range(&prev, p.len(), prev.len());
        assert(cur@ =~= prev@.skip(p@.len() as int));
    }
    cur
}

fn body_trigger_exec(line: &Vec<char>) -> (r: bool)
    ensures
        r == body_trigger(line@),
{
    let t = trim_start_chars(line);
    let pre = lit("trigger:");
    let colon = lit(":");
    proof {
        reveal_strlit("trigger:");
        reveal_strlit(":");
        assert(pre@ =~= trigger_prefix());
        assert(colon@ =~= seq![':']);
    }
    if !starts_with_exec(&t, &pre) {
        return false;
    }
    let a = strip_all_exec(&t, &pre);
    let b = strip_all_exec(&a, &colon);
    let rest = trim_chars(&b);
    rest.len() > 0
}

/// Whether the unit declares a trigger anywhere: a non-blank `trigger`
/// string in the frontmatter, or a body line starting (after leading
/// whitespace) with `trigger:` or `trigger::` followed by something.
pub fn has_trigger(content: &str) -> (r: bool)
    ensures
        r == has_trigger_spec(content@),
{
    let c = chars_of(content);
    let (fm, body) = parse_chars(&c);
    let key = lit("trigger");
    proof {
        reveal_strlit("trigger");
        assert(key@ =~= trigger_key());
    }
    let mut in_fm = false;
    match &fm {
        Some(y) => {
            match yaml_field(y, &key) {
                Some(v) => {
                    let tv = trim_chars(&v);
                    in_fm = tv.len() > 0;
                },
                None => {},
            }
        },
        None => {},
    }
    if in_fm {
        return true;
    }
    let ls = lines_of(&body);
    let ghost lv = text::lines(body@);
    let mut i: usize = 0;
    while i < ls.len()
        invariant
            i <= ls@.len(),
            text::views(ls@) == lv,
            lv == text::lines(frontmatter::parse_spec(content@).1),
            forall|k: int| 0 <= k < i ==> !#[trigger] body_trigger(lv[k]),
        decreases ls@.len() - i,
    {
        if body_trigger_exec(&ls[i]) {
            assert(body_trigger(lv[i as int]));
            return true;
        }
        assert(lv[i as int] == ls@[i as int]@);
        i = i + 1;
    }
    false
}

// ---------------------------------------------------------------------------
// Tag fragmentation
// ---------------------------------------------------------------------------

/// Bytes in the UTF-8 encoding of one character.
pub open spec fn utf8_width(c: char) -> nat {
    if (c as u32) < 0x80 {
        1
    } else if (c as u32) < 0x800 {
        2
    } else if (c as u32) < 0x10000 {
        3
    } else {
        4
    }
}

/// Bytes in the UTF-8 encoding of a string (what `str::len` returns).
pub open spec fn utf8_len(s: Seq<char>) -> nat
    decreases s.len(),
{
    if s.len() == 0 {
        0
    } else {
        utf8_len(s.drop_last()) + utf8_width(s.last())
    }
}

/// The alphanumeric characters of `s`, each lowercased, from the first `k`.
pub open spec fn folded(s: Seq<char>, k: int) -> Seq<char>
    decreases k,
{
    if k <= 0 || k > s.len() {
        Seq::empty()
    } else {
        folded(s, k - 1) + if alphanumeric(s[k - 1]) {
            char_lowercase(s[k - 1])
        } else {
            Seq::empty()
        }
    }
}

/// Normal form for spotting fragmented tags: alphanumeric characters only,
/// lowercased, with one trailing `s` dropped when the result is longer
/// than three bytes.
pub open spec fn normalize_tag_spec(t: Seq<char>) -> Seq<char> {
    let f = folded(t, t.len() as int);
    if utf8_len(f) > 3 && f.len() > 0 && f.last() == 's' {
        f.drop_last()
    } else {
        f
    }
}

fn utf8_len_exceeds_3(v: &Vec<char>) -> (r: bool)
    ensures
        r == (utf8_len(v@) > 3),
{
    let mut total: usize = 0;
    let mut i: usize = 0;
    while i < v.len() && total <= 3
        invariant
            i <= v@.len(),
            total == utf8_len(v@.take(i as int)),
            total <= 7,
        decreases v@.len() - i,
    {
        let c = v[i];
        let w: usize = if (c as u32) < 0x80 {
            1
        } else if (c as u32) < 0x800 {
            2
        } else if (c as u32) < 0x10000 {
            3
        } else {
            4
        };
        proof {
            assert(v@.take(i + 1).drop_last() =~= v@.take(i as int));
        }
        total = total + w;
        i = i + 1;
    }
    proof {
        lemma_utf8_len_mono(v@, i as int);
        if i == v@.len() {
            assert(v@.take(i as int) =~= v@);
        }
    }
    total > 3
}

proof fn lemma_utf8_len_mono(s: Seq<char>, i: int)
    requires
        0 <= i <= s.len(),
    ensures
        utf8_len(s.take(i)) <= utf8_len(s),
    decreases s.len() - i,
{
    if i < s.len() {
        lemma_utf8_len_mono(s, i + 1);
        assert(s.take(i + 1).drop_last() =~= s.take(i));
    } else {
        assert(s.take(i) =~= s);
    }
}

/// Normalize a tag for fragmentation detection: lowercase, keep only
/// alphanumeric characters, and drop one trailing `s` (when longer than
/// three bytes) to fold trivial plurals.
pub fn normalize_tag(tag: &str) -> (r: String)
    ensures
        r@ == normalize_tag_spec(tag@),
{
    let v = chars_of(tag);
    let mut out: Vec<char> = Vec::new();
    let mut i: usize = 0;
    while i < v.len()
        invariant
            i <= v@.len(),
            v@ == tag@,
            out@ == folded(v@, i as int),
        decreases v@.len() - i,
    {
        let c = v[i];
        if is_alnum(c) {
            let l = lower_char(c);
            append_chars(&mut out, &l);
        }
        i = i + 1;
    }
    if utf8_len_exceeds_3(&out) && out.len() > 0 && out[out.len() - 1] == 's' {
        out.pop();
    }
    string_of(out.as_slice())
}

/// The two ids in ascending order.
pub fn pair_key(a: &str, b: &str) -> (r: (String, String))
    ensures
        text::lex_lt(a@, b@) ==> r.0@ == a@ && r.1@ == b@,
        !text::lex_lt(a@, b@) ==> r.0@ == b@ && r.1@ == a@,
{
    let av = chars_of(a);
    let bv = chars_of(b);
    if lex_lt_exec(&av, &bv) {
        (a.to_owned(), b.to_owned())
    } else {
        (b.to_owned(), a.to_owned())
    }
}

// ---------------------------------------------------------------------------
// Decimal rendering
// ---------------------------------------------------------------------------

/// Decimal digits of `n` (no leading zeros; `0` for zero).
pub open spec fn decimal(n: nat) -> Seq<char>
    decreases n,
{
    if n < 10 {
        seq![digit_char(n)]
    } else {
        decimal(n / 10).push(digit_char(n % 10))
    }
}

pub open spec fn digit_char(d: nat) -> char {
    if d == 0 {
        '0'
    } else if d == 1 {
        '1'
    } else if d == 2 {
        '2'
    } else if d == 3 {
        '3'
    } else if d == 4 {
        '4'
    } else if d == 5 {
        '5'
    } else if d == 6 {
        '6'
    } else if d == 7 {
        '7'
    } else if d == 8 {
        '8'
    } else {
        '9'
    }
}

fn digit_exec(d: usize) -> (r: char)
    requires
        d < 10,
    ensures
        r == digit_char(d as nat),
{
    if d == 0 {
        '0'
    } else if d == 1 {
        '1'
    } else if d == 2 {
        '2'
    } else if d == 3 {
        '3'
    } else if d == 4 {
        '4'
    } else if d == 5 {
        '5'
    } else if d == 6 {
        '6'
    } else if d == 7 {
        '7'
    } else if d == 8 {
        '8'
    } else {
        '9'
    }
}

/// Decimal rendering of a count, as `{}` formats a `usize`.
pub fn decimal_chars(n: usize) -> (r: Vec<char>)
    ensures
        r@ == decimal(n as nat),
    decreases n,
{
    if n < 10 {
        let mut v: Vec<char> = Vec::new();
        v.push(digit_exec(n));
        v
    } else {
        let mut v = decimal_chars(n / 10);
        v.push(digit_exec(n % 10));
        v
    }
}

/// Decimal rendering of a 64-bit count.
pub fn decimal_chars_u64(n: u64) -> (r: Vec<char>)
    ensures
        r@ == decimal(n as nat),
    decreases n,
{
    if n < 10 {
        let mut v: Vec<char> = Vec::new();
        v.push(digit_exec(n as usize));
        v
    } else {
        let mut v = decimal_chars_u64(n / 10);
        v.push(digit_exec((n % 10) as usize));
        v
    }
}

// ---------------------------------------------------------------------------
// Findings
// ---------------------------------------------------------------------------

/// One unit flagged by a check.
#[derive(Debug, Clone)]
pub struct Finding {
    pub id: String,
    pub headline: String,
    pub unit_type: String,
    pub reason: String,
}

pub open spec fn finding_view(f: Finding) -> (Seq<char>, Seq<char>, Seq<char>, Seq<char>) {
    (f.id@, f.headline@, f.unit_type@, f.reason@)
}

pub open spec fn findings_view(v: Seq<Finding>) -> Seq<(Seq<char>, Seq<char>, Seq<char>, Seq<char>)> {
    v.map_values(|f: Finding| finding_view(f))
}

pub open spec fn procedure_type() -> Seq<char> {
    "procedure"@
}

pub open spec fn pnt_reason() -> Seq<char> {
    "procedure has no `trigger:` in frontmatter and no `trigger:` line in body"@
}

/// The finding for unit `u` with the given reason.
pub open spec fn finding_for(u: UnitCore, reason: Seq<char>) -> (Seq<char>, Seq<char>, Seq<char>, Seq<char>) {
    (u.id@, display::headline_spec(u.content@), u.unit_type@, reason)
}

/// Procedures among the first `k` units that declare no trigger.
pub open spec fn pnt_spec(us: Seq<UnitCore>, k: int) -> Seq<(Seq<char>, Seq<char>, Seq<char>, Seq<char>)>
    decreases k,
{
    if k <= 0 {
        Seq::empty()
    } else {
        let prev = pnt_spec(us, k - 1);
        let u = us[k - 1];
        if u.unit_type@ == procedure_type() && !has_trigger_spec(u.content@) {
            prev.push(finding_for(u, pnt_reason()))
        } else {
            prev
        }
    }
}

fn finding_of(u: &UnitCore, reason: &str) -> (r: Finding)
    ensures
        finding_view(r) == finding_for(*u, reason@),
{
    Finding {
        id: u.id.clone(),
        headline: derive_headline(u.content.as_str()),
        unit_type: u.unit_type.clone(),
        reason: reason.to_owned(),
    }
}

/// Procedures that declare no trigger, in unit order.
pub fn check_procedure_no_trigger(units: &Vec<UnitCore>) -> (r: Vec<Finding>)
    ensures
        findings_view(r@) == pnt_spec(units@, units@.len() as int),
{
    let mut out: Vec<Finding> = Vec::new();
    let mut i: usize = 0;
    while i < units.len()
        invariant
            i <= units@.len(),
            findings_view(out@) == pnt_spec(units@, i as int),
        decreases units@.len() - i,
    {
        let u = &units[i];
        if text::str_eq(u.unit_type.as_str(), "procedure") && !has_trigger(u.content.as_str()) {
            let f = finding_of(u, "procedure has no `trigger:` in frontmatter and no `trigger:` line in body");
            let ghost prev = findings_view(out@);
            out.push(f);
            proof {
                assert(findings_view(out@) =~= prev.push(finding_view(f)));
            }
        }
        i = i + 1;
    }
    out
}

pub open spec fn orphan_reason() -> Seq<char> {
    "no outgoing part_of link and no slug"@
}

pub open spec fn id_views(v: Seq<String>) -> Seq<Seq<char>> {
    v.map_values(|s: String| s@)
}

/// Units among the first `k` that have neither a parent nor a slug.
pub open spec fn orphan_spec(
    us: Seq<UnitCore>,
    parents: Seq<Seq<char>>,
    slugged: Seq<Seq<char>>,
    k: int,
) -> Seq<(Seq<char>, Seq<char>, Seq<char>, Seq<char>)>
    decreases k,
{
    if k <= 0 {
        Seq::empty()
    } else {
        let prev = orphan_spec(us, parents, slugged, k - 1);
        let u = us[k - 1];
        if !parents.contains(u.id@) && !slugged.contains(u.id@) {
            prev.push(finding_for(u, orphan_reason()))
        } else {
            prev
        }
    }
}

/// Whether `x` is among `v`.
pub fn contains_str(v: &Vec<String>, x: &str) -> (r: bool)
    ensures
        r == id_views(v@).contains(x@),
{
    let mut i: usize = 0;
    while i < v.len()
        invariant
            i <= v@.len(),
            forall|k: int| 0 <= k < i ==> #[trigger] v@[k]@ != x@,
        decreases v@.len() - i,
    {
        if text::str_eq(v[i].as_str(), x) {
            assert(id_views(v@)[i as int] == x@);
            return true;
        }
        i = i + 1;
    }
    proof {
        if id_views(v@).contains(x@) {
            let k = choose|k: int| 0 <= k < id_views(v@).len() && id_views(v@)[k] == x@;
            assert(v@[k]@ == x@);
        }
    }
    false
}

/// Units with no outgoing `part_of` edge (their id is not among
/// `parent_ids`, the ids that have a parent) and no slug (not among
/// `slugged_ids`), in unit order.
pub fn check_orphan(
    units: &Vec<UnitCore>,
    parent_ids: &Vec<String>,
    slugged_ids: &Vec<String>,
) -> (r: Vec<Finding>)
    ensures
        findings_view(r@) == orphan_spec(
            units@,
            id_views(parent_ids@),
            id_views(slugged_ids@),
            units@.len() as int,
        ),
{
    let mut out: Vec<Finding> = Vec::new();
    let mut i: usize = 0;
    while i < units.len()
        invariant
            i <= units@.len(),
            findings_view(out@) == orphan_spec(
                units@,
                id_views(parent_ids@),
                id_views(slugged_ids@),
                i as int,
            ),
        decreases units@.len() - i,
    {
        let u = &units[i];
        if !contains_str(parent_ids, u.id.as_str()) && !contains_str(slugged_ids, u.id.as_str()) {
            let f = finding_of(u, "no outgoing part_of link and no slug");
            let ghost prev = findings_view(out@);
            out.push(f);
            proof {
                assert(findings_view(out@) =~= prev.push(finding_view(f)));
            }
        }
        i = i + 1;
    }
    out
}

// ---------------------------------------------------------------------------
// Totals and regression check
// ---------------------------------------------------------------------------

/// Per-category finding counts of one audit run.
#[derive(Debug, Clone, Copy, PartialEq, Eq, Structural)]
pub struct LintTotals {
    pub procedure_no_trigger: usize,
    pub orphan: usize,
    pub dupe: usize,
    pub dual_parent_divergence: usize,
    pub tag_variant: usize,
    pub total: usize,
}

/// Totals from the category counts; `total` is their sum.
pub fn lint_totals(
    procedure_no_trigger: usize,
    orphan: usize,
    dupe: usize,
    dual_parent_divergence: usize,
    tag_variant: usize,
) -> (r: LintTotals)
    requires
        procedure_no_trigger + orphan + dupe + dual_parent_divergence + tag_variant <= usize::MAX,
    ensures
        r == (LintTotals {
            procedure_no_trigger,
            orphan,
            dupe,
            dual_parent_divergence,
            tag_variant,
            total: (procedure_no_trigger + orphan + dupe + dual_parent_divergence
                + tag_variant) as usize,
        }),
{
    LintTotals {
        procedure_no_trigger,
        orphan,
        dupe,
        dual_parent_divergence,
        tag_variant,
        total: procedure_no_trigger + orphan + dupe + dual_parent_divergence + tag_variant,
    }
}

/// Signed change of every category against a previous run, the
/// categories that grew (in category order), and whether any grew.
#[derive(Debug, Clone)]
pub struct CiDelta {
    pub procedure_no_trigger: i64,
    pub orphan: i64,
    pub dupe: i64,
    pub dual_parent_divergence: i64,
    pub tag_variant: i64,
    pub total: i64,
    pub regressions: Vec<&'static str>,
    pub regressed: bool,
}

pub open spec fn fits_i64(t: LintTotals) -> bool {
    &&& t.procedure_no_trigger <= i64::MAX
    &&& t.orphan <= i64::MAX
    &&& t.dupe <= i64::MAX
    &&& t.dual_parent_divergence <= i64::MAX
    &&& t.tag_variant <= i64::MAX
    &&& t.total <= i64::MAX
}

pub open spec fn zero_totals() -> LintTotals {
    LintTotals {
        procedure_no_trigger: 0,
        orphan: 0,
        dupe: 0,
        dual_parent_divergence: 0,
        tag_variant: 0,
        total: 0,
    }
}

/// Names of the categories whose count went up, in category order.
pub open spec fn regressions_spec(c: LintTotals, p: LintTotals) -> Seq<Seq<char>> {
    let a: Seq<Seq<char>> = if c.procedure_no_trigger > p.procedure_no_trigger {
        seq!["procedure_no_trigger"@]
    } else {
        Seq::empty()
    };
    let b = if c.orphan > p.orphan {
        a.push("orphan"@)
    } else {
        a
    };
    let d = if c.dupe > p.dupe {
        b.push("dupe"@)
    } else {
        b
    };
    let e = if c.dual_parent_divergence > p.dual_parent_divergence {
        d.push("dual_parent_divergence"@)
    } else {
        d
    };
    if c.tag_variant > p.tag_variant {
        e.push("tag_variant"@)
    } else {
        e
    }
}

/// Compare the current totals with a previous snapshot's (all zero when
/// there is none).
pub fn ci_compare(curr: LintTotals, prev: Option<LintTotals>) -> (r: CiDelta)
    requires
        fits_i64(curr),
        prev matches Some(p) ==> fits_i64(p),
    ensures
        ({
            let p = match prev {
                Some(p) => p,
                None => zero_totals(),
            };
            &&& r.procedure_no_trigger == curr.procedure_no_trigger - p.procedure_no_trigger
            &&& r.orphan == curr.orphan - p.orphan
            &&& r.dupe == curr.dupe - p.dupe
            &&& r.dual_parent_divergence == curr.dual_parent_divergence - p.dual_parent_divergence
            &&& r.tag_variant == curr.tag_variant - p.tag_variant
            &&& r.total == curr.total - p.total
            &&& r.regressions@.map_values(|s: &'static str| s@) == regressions_spec(curr, p)
            &&& r.regressed == (regressions_spec(curr, p).len() > 0)
        }),
{
    let p = match prev {
        Some(p) => p,
        None => LintTotals {
            procedure_no_trigger: 0,
            orphan: 0,
            dupe: 0,
            dual_parent_divergence: 0,
            tag_variant: 0,
            total: 0,
        },
    };
    let d_pnt = curr.procedure_no_trigger as i64 - p.procedure_no_trigger as i64;
    let d_orphan = curr.orphan as i64 - p.orphan as i64;
    let d_dupe = curr.dupe as i64 - p.dupe as i64;
    let d_div = curr.dual_parent_divergence as i64 - p.dual_parent_divergence as i64;
    let d_tag = curr.tag_variant as i64 - p.tag_variant as i64;
    let d_total = curr.total as i64 - p.total as i64;
    let mut regressions: Vec<&'static str> = Vec::new();
    if d_pnt > 0 {
        regressions.push("procedure_no_trigger");
    }
    if d_orphan > 0 {
        regressions.push("orphan");
    }
    if d_dupe > 0 {
        regressions.push("dupe");
    }
    if d_div > 0 {
        regressions.push("dual_parent_divergence");
    }
    if d_tag > 0 {
        regressions.push("tag_variant");
    }
    let regressed = regressions.len() > 0;
    proof {
        assert(regressions@.map_values(|s: &'static str| s@) =~= regressions_spec(curr, p));
    }
    CiDelta {
        procedure_no_trigger: d_pnt,
        orphan: d_orphan,
        dupe: d_dupe,
        dual_parent_divergence: d_div,
        tag_variant: d_tag,
        total: d_total,
        regressions,
        regressed,
    }
}

proof fn lemma_push_contains(s: Seq<Seq<char>>, x: Seq<char>, y: Seq<char>)
    ensures
        s.push(x).contains(y) <==> (s.contains(y) || x == y),
{
    let t = s.push(x);
    if t.contains(y) {
        let k = choose|k: int| 0 <= k < t.len() && t[k] == y;
        if k < s.len() {
            assert(s[k] == y);
        }
    }
    if s.contains(y) {
        let k = choose|k: int| 0 <= k < s.len() && s[k] == y;
        assert(t[k] == y);
    }
    if x == y {
        assert(t[s.len() as int] == y);
    }
}

/// The regression check: each category is named among the regressions
/// exactly when its current count is above the previous one, and the run
/// has regressed exactly when some category count went up.
pub proof fn law_regression_iff_count_rose(c: LintTotals, p: LintTotals)
    ensures
        regressions_spec(c, p).contains("procedure_no_trigger"@) <==> c.procedure_no_trigger > p.procedure_no_trigger,
        regressions_spec(c, p).contains("orphan"@) <==> c.orphan > p.orphan,
        regressions_spec(c, p).contains("dupe"@) <==> c.dupe > p.dupe,
        regressions_spec(c, p).contains("dual_parent_divergence"@) <==> c.dual_parent_divergence > p.dual_parent_divergence,
        regressions_spec(c, p).contains("tag_variant"@) <==> c.tag_variant > p.tag_variant,
        (regressions_spec(c, p).len() > 0) <==> (c.procedure_no_trigger > p.procedure_no_trigger || c.orphan > p.orphan
            || c.dupe > p.dupe || c.dual_parent_divergence > p.dual_parent_divergence || c.tag_variant > p.tag_variant),
{
    reveal_strlit("procedure_no_trigger");
    reveal_strlit("orphan");
    reveal_strlit("dupe");
    reveal_strlit("dual_parent_divergence");
    reveal_strlit("tag_variant");
    let n0 = "procedure_no_trigger"@;
    let n1 = "orphan"@;
    let n2 = "dupe"@;
    let n3 = "dual_parent_divergence"@;
    let n4 = "tag_variant"@;
    // The five names are pairwise distinct.
    assert(n0.len() == 20 && n1.len() == 6 && n2.len() == 4 && n3.len() == 22 && n4.len() == 11);
    let names = seq![n0, n1, n2, n3, n4];
    let a: Seq<Seq<char>> = if c.procedure_no_trigger > p.procedure_no_trigger {
        Seq::<Seq<char>>::empty().push(n0)
    } else {
        Seq::empty()
    };
    assert(seq![n0] =~= Seq::<Seq<char>>::empty().push(n0));
    let b = if c.orphan > p.orphan { a.push(n1) } else { a };
    let d = if c.dupe > p.dupe { b.push(n2) } else { b };
    let e = if c.dual_parent_divergence > p.dual_parent_divergence { d.push(n3) } else { d };
    let r = if c.tag_variant > p.tag_variant { e.push(n4) } else { e };
    assert(r =~= regressions_spec(c, p));
    assert forall|y: Seq<char>| #[trigger] names.contains(y) implies (r.contains(y) <==> (
        (y == n0 && c.procedure_no_trigger > p.procedure_no_trigger)
        || (y == n1 && c.orphan > p.orphan)
        || (y == n2 && c.dupe > p.dupe)
        || (y == n3 && c.dual_parent_divergence > p.dual_parent_divergence)
        || (y == n4 && c.tag_variant > p.tag_variant))) by {
        lemma_push_contains(Seq::<Seq<char>>::empty(), n0, y);
        lemma_push_contains(a, n1, y);
        lemma_push_contains(b, n2, y);
        lemma_push_contains(d, n3, y);
        lemma_push_contains(e, n4, y);
    }
    assert(names[0] == n0 && names[1] == n1 && names[2] == n2 && names[3] == n3 && names[4] == n4);
    assert(names.contains(n0));
    assert(names.contains(n1));
    assert(names.contains(n2));
    assert(names.contains(n3));
    assert(names.contains(n4));
    assert(n1 != n2) by {
        assert(n1[0] != n2[0]);
    }
}

} // verus!
