//! Write-time tag policy.
//!
//! 1. `normalize_tags`: lowercase + trim + dedupe the incoming list so case
//!    and whitespace variants do not proliferate (`Aspect` vs `aspect`).
//! 2. `classify_noise`: name the noise pattern a tag matches (`task:`,
//!    `phase-X`, single characters, version tags, hex UUID fragments).
//! 3. `tag_verdict`: from the noise classes and which tags some live unit
//!    already carries, decide what is rejected, what is novel, and whether
//!    the write is refused (`--force` overrides the refusal).
//! 4. `suggest_neighbors`: closest existing tags for a novel one, by edit
//!    distance and shared three-character prefix.
use vstd::prelude::*;
use crate::text;
use crate::text::{chars_of, copy_range, lit, starts_with_exec, string_of, take_chars_exec, trim_chars};
use crate::wordset;
use crate::wordset::add_word_exec;

verus! {

broadcast use vstd::string::group_string_axioms;

// ---------------------------------------------------------------------------
// Normalisation
// ---------------------------------------------------------------------------

/// What `str::to_lowercase` returns for a string (Unicode lowercase
/// mapping, including the context-dependent final sigma).
pub uninterp spec fn lowercase(s: Seq<char>) -> Seq<char>;

/// `str::to_lowercase`. The contract only names the result: the Unicode
/// case tables are left to std.
#[verifier::external_body]
pub(crate) fn to_lowercase(s: &str) -> (r: String)
    ensures
        r@ == lowercase(s@),
{
    s.to_lowercase()
}

/// Normal form of a tag list: each tag trimmed and lowercased, empty
/// results dropped, duplicates dropped (first occurrence kept).
pub open spec fn normalize_spec(ts: Seq<Seq<char>>) -> Seq<Seq<char>>
    decreases ts.len(),
{
    if ts.len() == 0 {
        Seq::empty()
    } else {
        let n = lowercase(text::trim(ts.last()));
        let acc = normalize_spec(ts.drop_last());
        if n.len() == 0 {
            acc
        } else {
            wordset::add_word(acc, n)
        }
    }
}

pub open spec fn string_views(v: Seq<String>) -> Seq<Seq<char>> {
    v.map_values(|t: String| t@)
}

/// Lowercase, trim, dedupe (stable order).
pub fn normalize_tags(tags: &Vec<String>) -> (r: Vec<String>)
    ensures
        string_views(r@) == normalize_spec(string_views(tags@)),
{
    let mut acc: Vec<Vec<char>> = Vec::new();
    let mut i: usize = 0;
    let ghost tv = string_views(tags@);
    assert(text::views(acc@) =~= normalize_spec(tv.take(0)));
    while i < tags.len()
        invariant
            i <= tags@.len(),
            tv == string_views(tags@),
            text::views(acc@) == normalize_spec(tv.take(i as int)),
        decreases tags@.len() - i,
    {
        assert(tv.take(i + 1).drop_last() =~= tv.take(i as int));
        assert(tv.take(i + 1).last() == tags@[i as int]@);
        let trimmed = trim_chars(&chars_of(tags[i].as_str()));
        let lowered = chars_of(to_lowercase(string_of(trimmed.as_slice()).as_str()).as_str());
        if lowered.len() > 0 {
            add_word_exec(&mut acc, lowered);
        }
        i = i + 1;
    }
    assert(tv.take(tags@.len() as int) =~= tv);
    let mut out: Vec<String> = Vec::new();
    let mut k: usize = 0;
    while k < acc.len()
        invariant
            k <= acc@.len(),
            out@.len() == k,
            forall|j: int| 0 <= j < k ==> #[trigger] out@[j]@ == acc@[j]@,
        decreases acc@.len() - k,
    {
        out.push(string_of(acc[k].as_slice()));
        k = k + 1;
    }
    assert(string_views(out@) =~= text::views(acc@));
    out
}

pub proof fn lemma_normalize_props(ts: Seq<Seq<char>>)
    ensures
        normalize_spec(ts).no_duplicates(),
        forall|k: int| 0 <= k < normalize_spec(ts).len() ==> #[trigger] normalize_spec(ts)[k].len() > 0,
    decreases ts.len(),
{
    if ts.len() > 0 {
        lemma_normalize_props(ts.drop_last());
        let n = lowercase(text::trim(ts.last()));
        let acc = normalize_spec(ts.drop_last());
        if n.len() > 0 {
            wordset::lemma_add_word_no_dup(acc, n);
            assert forall|k: int| 0 <= k < normalize_spec(ts).len() implies #[trigger] normalize_spec(ts)[k].len() > 0 by {
                if !acc.contains(n) && k == acc.len() {
                } else {
                }
            }
        }
    }
}

/// Normalised tag lists hold no duplicate and no empty tag.
pub proof fn law_normalized_tags_are_distinct_and_nonempty(tags: Seq<Seq<char>>)
    ensures
        normalize_spec(tags).no_duplicates(),
        forall|k: int| 0 <= k < normalize_spec(tags).len() ==> #[trigger] normalize_spec(tags)[k].len() > 0,
{
    lemma_normalize_props(tags);
}

// ---------------------------------------------------------------------------
// Noise classes
// ---------------------------------------------------------------------------

/// All characters of `s` satisfy digit-or-dot (`dot`) or digit only.
pub open spec fn all_digits(s: Seq<char>, dot: bool) -> bool {
    forall|k: int| 0 <= k < s.len() ==> ('0' <= #[trigger] s[k] && s[k] <= '9') || (dot && s[k] == '.')
}

/// ASCII hex digit.
pub open spec fn is_hex(c: char) -> bool {
    ('0' <= c && c <= '9') || ('a' <= c && c <= 'f') || ('A' <= c && c <= 'F')
}

/// `rest` after `prefix` is a non-empty digit (or digit-and-dot) run.
pub open spec fn numbered(t: Seq<char>, prefix: Seq<char>, dot: bool) -> bool {
    text::starts_with(t, prefix) && t.len() > prefix.len() && all_digits(t.skip(prefix.len() as int), dot)
}

/// Prefixes that namespace a tag rather than describe a domain.
pub open spec fn noise_prefix(t: Seq<char>) -> bool {
    ||| text::starts_with(t, "task:"@)
    ||| text::starts_with(t, "item:"@)
    ||| text::starts_with(t, "event:"@)
    ||| text::starts_with(t, "story:"@)
    ||| text::starts_with(t, "order:"@)
    ||| text::starts_with(t, "supersedes:"@)
    ||| text::starts_with(t, "target:"@)
}

/// The noise class of a tag, if any, checked in priority order.
pub open spec fn noise_spec(t: Seq<char>) -> Option<Seq<char>> {
    if t.len() == 0 {
        Some("empty"@)
    } else if t.len() == 1 {
        Some("single-char"@)
    } else if noise_prefix(t) {
        Some("namespace-prefix"@)
    } else if text::starts_with(t, "phase-"@) {
        Some("phase-X"@)
    } else if numbered(t, "gate-"@, true) {
        Some("gate-N"@)
    } else if numbered(t, "priority-"@, false) {
        Some("priority-N"@)
    } else if numbered(t, "story-"@, false) {
        Some("story-N"@)
    } else if numbered(t, seq!['v'], true) {
        Some("version-tag"@)
    } else if t.len() >= 8 && forall|k: int| 0 <= k < t.len() ==> is_hex(#[trigger] t[k]) {
        Some("hex-uuid-fragment"@)
    } else {
        None
    }
}

fn all_digits_exec(v: &Vec<char>, from: usize, dot: bool) -> (r: bool)
    requires
        from <= v@.len(),
    ensures
        r == all_digits(v@.skip(from as int), dot),
{
    let mut k = from;
    while k < v.len()
        invariant
            from <= k <= v@.len(),
            forall|j: int| from <= j < k ==> ('0' <= #[trigger] v@[j] && v@[j] <= '9') || (dot && v@[j] == '.'),
        decreases v@.len() - k,
    {
        let c = v[k];
        if !(('0' <= c && c <= '9') || (dot && c == '.')) {
            assert(v@.skip(from as int)[k - from] == c);
            return false;
        }
        k = k + 1;
    }
    assert forall|j: int| 0 <= j < v@.skip(from as int).len() implies ('0' <= #[trigger] v@.skip(from as int)[j] && v@.skip(from as int)[j] <= '9') || (dot && v@.skip(from as int)[j] == '.') by {
        assert(v@.skip(from as int)[j] == v@[from + j]);
    }
    true
}

fn numbered_exec(v: &Vec<char>, prefix: &str, dot: bool) -> (r: bool)
    ensures
        r == numbered(v@, prefix@, dot),
{
    let p = lit(prefix);
    if starts_with_exec(v, &p) && v.len() > p.len() {
        all_digits_exec(v, p.len(), dot)
    } else {
        false
    }
}

fn starts_with_lit(v: &Vec<char>, prefix: &str) -> (r: bool)
    ensures
        r == text::starts_with(v@, prefix@),
{
    starts_with_exec(v, &lit(prefix))
}

/// The noise class of a tag, or `None` when the tag passes.
pub fn classify_noise(t: &str) -> (r: Option<&'static str>)
    ensures
        r matches Some(x) ==> noise_spec(t@) == Some(x@),
        r is None ==> noise_spec(t@) is None,
{
    let v = chars_of(t);
    if v.len() == 0 {
        return Some("empty");
    }
    if v.len() == 1 {
        return Some("single-char");
    }
    if starts_with_lit(&v, "task:") || starts_with_lit(&v, "item:") || starts_with_lit(&v, "event:")
        || starts_with_lit(&v, "story:") || starts_with_lit(&v, "order:") || starts_with_lit(
        &v,
        "supersedes:",
    ) || starts_with_lit(&v, "target:") {
        return Some("namespace-prefix");
    }
    if starts_with_lit(&v, "phase-") {
        return Some("phase-X");
    }
    if numbered_exec(&v, "gate-", true) {
        return Some("gate-N");
    }
    if numbered_exec(&v, "priority-", false) {
        return Some("priority-N");
    }
    if numbered_exec(&v, "story-", false) {
        return Some("story-N");
    }
    let vee: Vec<char> = vec!['v'];
    assert(vee@ =~= seq!['v']);
    if starts_with_exec(&v, &vee) && v.len() > 1 && all_digits_exec(&v, 1, true) {
        return Some("version-tag");
    }
    if v.len() >= 8 {
        let ghost all_hex = forall|j: int| 0 <= j < v@.len() ==> is_hex(#[trigger] v@[j]);
        assert(noise_spec(t@) == if all_hex { Some("hex-uuid-fragment"@) } else { None });
        let mut k: usize = 0;
        while k < v.len()
            invariant
                k <= v@.len(),
                all_hex == forall|j: int| 0 <= j < v@.len() ==> is_hex(#[trigger] v@[j]),
                noise_spec(t@) == if all_hex { Some("hex-uuid-fragment"@) } else { None },
                forall|j: int| 0 <= j < k ==> is_hex(#[trigger] v@[j]),
            decreases v@.len() - k,
        {
            let c = v[k];
            if !(('0' <= c && c <= '9') || ('a' <= c && c <= 'f') || ('A' <= c && c <= 'F')) {
                assert(!is_hex(v@[k as int]));
                assert(!(forall|j: int| 0 <= j < v@.len() ==> is_hex(#[trigger] v@[j])));
                assert(noise_spec(t@) is None);
                return None;
            }
            k = k + 1;
        }
        return Some("hex-uuid-fragment");
    }
    None
}

// ---------------------------------------------------------------------------
// Edit distance
// ---------------------------------------------------------------------------

pub open spec fn min3(x: int, y: int, z: int) -> int {
    if x <= y && x <= z {
        x
    } else if y <= z {
        y
    } else {
        z
    }
}

/// Levenshtein distance between the first `i` characters of `a` and the
/// first `j` characters of `b` (unit-cost insert, delete, substitute).
pub open spec fn lev(a: Seq<char>, b: Seq<char>, i: int, j: int) -> int
    decreases i + j,
{
    if i <= 0 {
        if j <= 0 {
            0
        } else {
            j
        }
    } else if j <= 0 {
        i
    } else {
        min3(
            lev(a, b, i, j - 1) + 1,
            lev(a, b, i - 1, j) + 1,
            lev(a, b, i - 1, j - 1) + if a[i - 1] == b[j - 1] {
                0int
            } else {
                1int
            },
        )
    }
}

/// Levenshtein distance between `a` and `b`.
pub open spec fn levenshtein_spec(a: Seq<char>, b: Seq<char>) -> int {
    lev(a, b, a.len() as int, b.len() as int)
}

pub proof fn lemma_lev_bounds(a: Seq<char>, b: Seq<char>, i: int, j: int)
    requires
        0 <= i,
        0 <= j,
    ensures
        0 <= lev(a, b, i, j) <= if i >= j { i } else { j },
    decreases i + j,
{
    if i > 0 && j > 0 {
        lemma_lev_bounds(a, b, i, j - 1);
        lemma_lev_bounds(a, b, i - 1, j);
        lemma_lev_bounds(a, b, i - 1, j - 1);
    }
}

/// Edit distance between two strings, counted in characters.
pub fn levenshtein(a: &str, b: &str) -> (r: usize)
    requires
        a@.len() < usize::MAX,
        b@.len() < usize::MAX,
    ensures
        r == levenshtein_spec(a@, b@),
{
    let av = chars_of(a);
    let bv = chars_of(b);
    let la = av.len();
    let lb = bv.len();
    if la == 0 {
        return lb;
    }
    if lb == 0 {
        return la;
    }
    let mut prev: Vec<usize> = Vec::new();
    let mut j: usize = 0;
    while j <= lb
        invariant
            j <= lb + 1,
            lb == bv@.len(),
            lb < usize::MAX,
            prev@.len() == j,
            forall|k: int| 0 <= k < j ==> #[trigger] prev@[k] == lev(av@, bv@, 0, k),
        decreases lb + 1 - j,
    {
        prev.push(j);
        j = j + 1;
    }
    let mut i: usize = 1;
    while i <= la
        invariant
            1 <= i <= la + 1,
            la == av@.len(),
            lb == bv@.len(),
            la < usize::MAX,
            lb < usize::MAX,
            prev@.len() == lb + 1,
            forall|k: int| 0 <= k <= lb ==> #[trigger] prev@[k] == lev(av@, bv@, i - 1, k),
        decreases la + 1 - i,
    {
        let mut curr: Vec<usize> = Vec::new();
        curr.push(i);
        let mut j: usize = 1;
        while j <= lb
            invariant
                1 <= i <= la,
                1 <= j <= lb + 1,
                la == av@.len(),
                lb == bv@.len(),
                la < usize::MAX,
                lb < usize::MAX,
                prev@.len() == lb + 1,
                forall|k: int| 0 <= k <= lb ==> #[trigger] prev@[k] == lev(av@, bv@, i - 1, k),
                curr@.len() == j,
                forall|k: int| 0 <= k < j ==> #[trigger] curr@[k] == lev(av@, bv@, i as int, k),
            decreases lb + 1 - j,
        {
            proof {
                lemma_lev_bounds(av@, bv@, i as int, j - 1);
                lemma_lev_bounds(av@, bv@, i - 1, j as int);
                lemma_lev_bounds(av@, bv@, i - 1, j - 1);
            }
            let cost: usize = if av[i - 1] == bv[j - 1] { 0 } else { 1 };
            let ins = curr[j - 1] + 1;
            let del = prev[j] + 1;
            let sub = prev[j - 1] + cost;
            let m1 = if ins <= del { ins } else { del };
            let m = if m1 <= sub { m1 } else { sub };
            curr.push(m);
            j = j + 1;
        }
        prev = curr;
        i = i + 1;
    }
    prev[lb]
}

pub proof fn lemma_lev_symmetric(a: Seq<char>, b: Seq<char>, i: int, j: int)
    ensures
        lev(a, b, i, j) == lev(b, a, j, i),
    decreases i + j,
{
    if i > 0 && j > 0 {
        lemma_lev_symmetric(a, b, i, j - 1);
        lemma_lev_symmetric(a, b, i - 1, j);
        lemma_lev_symmetric(a, b, i - 1, j - 1);
    }
}

pub proof fn lemma_lev_same(a: Seq<char>, i: int)
    requires
        0 <= i <= a.len(),
    ensures
        lev(a, a, i, i) == 0,
    decreases i,
{
    if i > 0 {
        lemma_lev_same(a, i - 1);
        lemma_lev_bounds(a, a, i, i - 1);
        lemma_lev_bounds(a, a, i - 1, i);
    }
}

/// Edit distance is symmetric, and zero between a string and itself.
pub proof fn law_levenshtein_symmetric_and_reflexive(a: Seq<char>, b: Seq<char>)
    ensures
        levenshtein_spec(a, b) == levenshtein_spec(b, a),
        levenshtein_spec(a, a) == 0,
{
    lemma_lev_symmetric(a, b, a.len() as int, b.len() as int);
    lemma_lev_same(a, a.len() as int);
}

// ---------------------------------------------------------------------------
// Verdict on a tag list
// ---------------------------------------------------------------------------

/// What the write-time tag check concluded: the noise tags with their
/// class, the tags no live unit carries yet, and whether the write is
/// refused (noise present and no `--force`).
pub struct TagVerdict {
    pub rejected: Vec<(String, &'static str)>,
    pub novel: Vec<String>,
    pub refused: bool,
}

/// Noise tags among the first `n` tags, with their class, in order.
pub open spec fn rejected_spec(ts: Seq<Seq<char>>, n: int) -> Seq<(Seq<char>, Seq<char>)>
    decreases n,
{
    if n <= 0 {
        Seq::empty()
    } else {
        let acc = rejected_spec(ts, n - 1);
        match noise_spec(ts[n - 1]) {
            Some(c) => acc.push((ts[n - 1], c)),
            None => acc,
        }
    }
}

/// Tags among the first `n` that pass the noise check but that no live
/// unit carries (`known[i]` false), in order.
pub open spec fn novel_spec(ts: Seq<Seq<char>>, known: Seq<bool>, n: int) -> Seq<Seq<char>>
    decreases n,
{
    if n <= 0 {
        Seq::empty()
    } else {
        let acc = novel_spec(ts, known, n - 1);
        if noise_spec(ts[n - 1]) is None && !known[n - 1] {
            acc.push(ts[n - 1])
        } else {
            acc
        }
    }
}

pub open spec fn pair_views(v: Seq<(String, &'static str)>) -> Seq<(Seq<char>, Seq<char>)> {
    v.map_values(|p: (String, &'static str)| (p.0@, p.1@))
}

/// Decide the outcome of the tag check. `known[i]` tells whether some live
/// unit already carries `tags[i]`.
pub fn tag_verdict(tags: &Vec<String>, known: &Vec<bool>, force: bool) -> (r: TagVerdict)
    requires
        known@.len() == tags@.len(),
    ensures
        pair_views(r.rejected@) == rejected_spec(string_views(tags@), tags@.len() as int),
        string_views(r.novel@) == novel_spec(string_views(tags@), known@, tags@.len() as int),
        r.refused == (r.rejected@.len() > 0 && !force),
{
    let ghost tv = string_views(tags@);
    let mut rejected: Vec<(String, &'static str)> = Vec::new();
    let mut novel: Vec<String> = Vec::new();
    let mut i: usize = 0;
    assert(pair_views(rejected@) =~= rejected_spec(tv, 0));
    assert(string_views(novel@) =~= novel_spec(tv, known@, 0));
    while i < tags.len()
        invariant
            i <= tags@.len(),
            known@.len() == tags@.len(),
            tv == string_views(tags@),
            pair_views(rejected@) == rejected_spec(tv, i as int),
            string_views(novel@) == novel_spec(tv, known@, i as int),
        decreases tags@.len() - i,
    {
        assert(tv[i as int] == tags@[i as int]@);
        match classify_noise(tags[i].as_str()) {
            Some(reason) => {
                let ghost prev = pair_views(rejected@);
                rejected.push((tags[i].clone(), reason));
                assert(pair_views(rejected@) =~= prev.push((tv[i as int], reason@)));
            },
            None => {
                if !known[i] {
                    let ghost prev = string_views(novel@);
                    novel.push(tags[i].clone());
                    assert(string_views(novel@) =~= prev.push(tv[i as int]));
                }
            },
        }
        i = i + 1;
    }
    let refused = rejected.len() > 0 && !force;
    TagVerdict { rejected, novel, refused }
}

// ---------------------------------------------------------------------------
// Neighbour suggestions
// ---------------------------------------------------------------------------

/// A candidate tag `c` is near `t`: edit distance at most 2, or one starts
/// with the other's first three characters.
pub open spec fn near(t: Seq<char>, c: Seq<char>) -> bool {
    ||| levenshtein_spec(t, c) <= 2
    ||| (text::take_chars(t, 3).len() > 0 && text::starts_with(c, text::take_chars(t, 3)))
    ||| (text::take_chars(c, 3).len() > 0 && text::starts_with(t, text::take_chars(c, 3)))
}

/// (tag, uses, distance) for the first `n` rows that are near `t`.
pub open spec fn scored_spec(t: Seq<char>, rows: Seq<(Seq<char>, i64)>, n: int) -> Seq<(Seq<char>, i64, int)>
    decreases n,
{
    if n <= 0 {
        Seq::empty()
    } else {
        let acc = scored_spec(t, rows, n - 1);
        let c = rows[n - 1].0;
        if near(t, c) {
            acc.push((c, rows[n - 1].1, levenshtein_spec(t, c)))
        } else {
            acc
        }
    }
}

/// `e` sorts strictly after `x`: larger distance, or same distance and
/// fewer uses.
pub open spec fn sorts_after(e: (Seq<char>, i64, int), x: (Seq<char>, i64, int)) -> bool {
    e.2 > x.2 || (e.2 == x.2 && e.1 < x.1)
}

/// Position at which `x` enters the sorted `s`: before the first element
/// that sorts strictly after it (after all equal ones, keeping order).
pub open spec fn insert_pos(s: Seq<(Seq<char>, i64, int)>, x: (Seq<char>, i64, int), i: int) -> int
    decreases s.len() - i,
{
    if i < 0 || i >= s.len() {
        i
    } else if sorts_after(s[i], x) {
        i
    } else {
        insert_pos(s, x, i + 1)
    }
}

/// Stable sort by (distance ascending, uses descending).
pub open spec fn stable_sort(s: Seq<(Seq<char>, i64, int)>) -> Seq<(Seq<char>, i64, int)>
    decreases s.len(),
{
    if s.len() == 0 {
        Seq::empty()
    } else {
        let sorted = stable_sort(s.drop_last());
        sorted.insert(insert_pos(sorted, s.last(), 0), s.last())
    }
}

/// The (at most three) nearest existing tags with their use counts.
pub open spec fn suggestions_spec(t: Seq<char>, rows: Seq<(Seq<char>, i64)>) -> Seq<(Seq<char>, i64)> {
    let sorted = stable_sort(scored_spec(t, rows, rows.len() as int));
    let top = if sorted.len() <= 3 {
        sorted
    } else {
        sorted.take(3)
    };
    top.map_values(|e: (Seq<char>, i64, int)| (e.0, e.1))
}

proof fn lemma_insert_pos_bounds(s: Seq<(Seq<char>, i64, int)>, x: (Seq<char>, i64, int), i: int)
    requires
        0 <= i <= s.len(),
    ensures
        i <= insert_pos(s, x, i) <= s.len(),
    decreases s.len() - i,
{
    if i < s.len() && !sorts_after(s[i], x) {
        lemma_insert_pos_bounds(s, x, i + 1);
    }
}

proof fn lemma_stable_sort_len(s: Seq<(Seq<char>, i64, int)>)
    ensures
        stable_sort(s).len() == s.len(),
    decreases s.len(),
{
    if s.len() > 0 {
        lemma_stable_sort_len(s.drop_last());
        lemma_insert_pos_bounds(stable_sort(s.drop_last()), s.last(), 0);
    }
}

pub open spec fn row_views(v: Seq<(String, i64)>) -> Seq<(Seq<char>, i64)> {
    v.map_values(|p: (String, i64)| (p.0@, p.1))
}

pub open spec fn scored_views(v: Seq<(String, i64, usize)>) -> Seq<(Seq<char>, i64, int)> {
    v.map_values(|p: (String, i64, usize)| (p.0@, p.1, p.2 as int))
}

/// Closest existing tags for a novel tag: rows `(tag, uses)` that are near
/// it, sorted by edit distance then by uses (descending), at most three.
pub fn suggest_neighbors(tag: &str, rows: &Vec<(String, i64)>) -> (r: Vec<(String, i64)>)
    requires
        tag@.len() < usize::MAX,
        forall|k: int| 0 <= k < rows@.len() ==> (#[trigger] rows@[k]).0@.len() < usize::MAX,
    ensures
        row_views(r@) == suggestions_spec(tag@, row_views(rows@)),
{
    let t = chars_of(tag);
    let p3 = take_chars_exec(&t, 3);
    let ghost rv = row_views(rows@);
    let mut sorted: Vec<(String, i64, usize)> = Vec::new();
    let mut i: usize = 0;
    assert(scored_views(sorted@) =~= stable_sort(scored_spec(tag@, rv, 0)));
    while i < rows.len()
        invariant
            i <= rows@.len(),
            t@ == tag@,
            tag@.len() < usize::MAX,
            p3@ == text::take_chars(tag@, 3),
            rv == row_views(rows@),
            forall|k: int| 0 <= k < rows@.len() ==> (#[trigger] rows@[k]).0@.len() < usize::MAX,
            scored_views(sorted@) == stable_sort(scored_spec(tag@, rv, i as int)),
        decreases rows@.len() - i,
    {
        let cand = &rows[i].0;
        let n = rows[i].1;
        assert(rv[i as int] == (cand@, n));
        assert(rows@[i as int].0@.len() < usize::MAX);
        let d = levenshtein(tag, cand.as_str());
        let cv = chars_of(cand.as_str());
        let cp3 = take_chars_exec(&cv, 3);
        let is_near = d <= 2 || (p3.len() > 0 && starts_with_exec(&cv, &p3)) || (cp3.len() > 0
            && starts_with_exec(&t, &cp3));
        if is_near {
            let x = (cand.clone(), n, d);
            let ghost xs = (cand@, n, d as int);
            let ghost ss = scored_views(sorted@);
            proof { lemma_insert_pos_bounds(ss, xs, 0); }
            let mut p: usize = 0;
            while p < sorted.len() && !(sorted[p].2 > d || (sorted[p].2 == d && sorted[p].1 < n))
                invariant
                    p <= sorted@.len(),
                    ss == scored_views(sorted@),
                    xs == (cand@, n, d as int),
                    insert_pos(ss, xs, p as int) == insert_pos(ss, xs, 0),
                decreases sorted@.len() - p,
            {
                assert(ss[p as int] == (sorted@[p as int].0@, sorted@[p as int].1, sorted@[p as int].2 as int));
                p = p + 1;
            }
            proof {
                if p < sorted@.len() {
                    assert(ss[p as int] == (sorted@[p as int].0@, sorted@[p as int].1, sorted@[p as int].2 as int));
                }
            }
            sorted.insert(p, x);
            proof {
                let sc = scored_spec(tag@, rv, i + 1);
                assert(sc == scored_spec(tag@, rv, i as int).push(xs));
                assert(sc.drop_last() =~= scored_spec(tag@, rv, i as int));
                assert(scored_views(sorted@) =~= ss.insert(p as int, xs));
            }
        } else {
            assert(scored_spec(tag@, rv, i + 1) == scored_spec(tag@, rv, i as int));
        }
        i = i + 1;
    }
    let ghost all = stable_sort(scored_spec(tag@, rv, rows@.len() as int));
    let mut out: Vec<(String, i64)> = Vec::new();
    let mut k: usize = 0;
    while k < sorted.len() && k < 3
        invariant
            k <= sorted@.len(),
            k <= 3,
            all == scored_views(sorted@),
            out@.len() == k,
            forall|j: int| 0 <= j < k ==> #[trigger] out@[j].0@ == sorted@[j].0@ && out@[j].1 == sorted@[j].1,
        decreases sorted@.len() - k,
    {
        out.push((sorted[k].0.clone(), sorted[k].1));
        k = k + 1;
    }
    let ghost top = if all.len() <= 3 { all } else { all.take(3) };
    assert(row_views(out@) =~= top.map_values(|e: (Seq<char>, i64, int)| (e.0, e.1)));
    out
}

} // verus!
