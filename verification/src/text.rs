//! Character-level text primitives shared by every module: conversion
//! between `&str`/`String` and `Vec<char>`, whitespace and trimming,
//! line splitting, searching and small builders.
//!
//! Every exec helper works on `Vec<char>` and is specified over the
//! `Seq<char>` view, so callers can reason about strings as sequences.
use vstd::prelude::*;

verus! {

broadcast use vstd::string::group_string_axioms;

// ---------------------------------------------------------------------------
// Conversions
// ---------------------------------------------------------------------------

/// Appends one character to an owned string (`String::push`).
#[verifier::external_body]
fn push_char(s: &mut String, c: char)
    ensures
        final(s)@ == old(s)@.push(c),
{
    s.push(c);
}

/// The characters of a string slice, in order.
pub fn chars_of(s: &str) -> (r: Vec<char>)
    ensures
        r@ == s@,
{
    let mut out: Vec<char> = Vec::new();
    for c in it: s.chars()
        invariant
            it.seq() == s@,
            out@ == it.seq().take(it.index()),
    {
        out.push(c);
    }
    out
}

/// An owned string holding exactly the given characters.
pub fn string_of(v: &[char]) -> (r: String)
    ensures
        r@ == v@,
{
    let mut out = String::new();
    let mut i: usize = 0;
    while i < v.len()
        invariant
            i <= v@.len(),
            out@ == v@.take(i as int),
        decreases v@.len() - i,
    {
        push_char(&mut out, v[i]);
        assert(v@.take(i + 1) =~= v@.take(i as int).push(v@[i as int]));
        i = i + 1;
    }
    assert(v@.take(v@.len() as int) =~= v@);
    out
}

/// Copies `v[a..b]` into a fresh vector.
pub fn copy_range(v: &Vec<char>, a: usize, b: usize) -> (r: Vec<char>)
    requires
        a <= b <= v@.len(),
    ensures
        r@ == v@.subrange(a as int, b as int),
{
    let mut out: Vec<char> = Vec::new();
    let mut i: usize = a;
    while i < b
        invariant
            a <= i <= b <= v@.len(),
            out@ == v@.subrange(a as int, i as int),
        decreases b - i,
    {
        out.push(v[i]);
        assert(v@.subrange(a as int, i + 1) =~= v@.subrange(a as int, i as int).push(v@[i as int]));
        i = i + 1;
    }
    out
}

/// Appends every character of `src` to `dst`.
pub fn append_chars(dst: &mut Vec<char>, src: &Vec<char>)
    ensures
        final(dst)@ == old(dst)@ + src@,
{
    let mut i: usize = 0;
    while i < src.len()
        invariant
            i <= src@.len(),
            dst@ == old(dst)@ + src@.take(i as int),
        decreases src@.len() - i,
    {
        dst.push(src[i]);
        assert(old(dst)@ + src@.take(i + 1) =~= (old(dst)@ + src@.take(i as int)).push(src@[i as int]));
        i = i + 1;
    }
    assert(src@.take(src@.len() as int) =~= src@);
}

/// Concatenation of two character vectors.
pub fn concat2(a: &Vec<char>, b: &Vec<char>) -> (r: Vec<char>)
    ensures
        r@ == a@ + b@,
{
    let mut out = a.clone();
    assert(out@ == a@);
    append_chars(&mut out, b);
    out
}

/// Element-wise equality of two character vectors.
pub fn chars_eq(a: &Vec<char>, b: &Vec<char>) -> (r: bool)
    ensures
        r == (a@ == b@),
{
    if a.len() != b.len() {
        return false;
    }
    let mut i: usize = 0;
    while i < a.len()
        invariant
            a@.len() == b@.len(),
            i <= a@.len(),
            forall|k: int| 0 <= k < i ==> a@[k] == b@[k],
        decreases a@.len() - i,
    {
        if a[i] != b[i] {
            return false;
        }
        i = i + 1;
    }
    assert(a@ =~= b@);
    true
}

/// Equality of two owned strings by their characters.
pub fn str_eq(a: &str, b: &str) -> (r: bool)
    ensures
        r == (a@ == b@),
{
    let va = chars_of(a);
    let vb = chars_of(b);
    chars_eq(&va, &vb)
}

// ---------------------------------------------------------------------------
// Whitespace and trimming
// ---------------------------------------------------------------------------

/// Unicode `White_Space` property, as used by `char::is_whitespace`.
pub open spec fn is_ws(c: char) -> bool {
    ||| ('\u{9}' <= c && c <= '\u{d}')
    ||| c == ' '
    ||| c == '\u{85}'
    ||| c == '\u{a0}'
    ||| c == '\u{1680}'
    ||| ('\u{2000}' <= c && c <= '\u{200a}')
    ||| c == '\u{2028}'
    ||| c == '\u{2029}'
    ||| c == '\u{202f}'
    ||| c == '\u{205f}'
    ||| c == '\u{3000}'
}

/// Whether `c` carries the Unicode `White_Space` property.
pub fn is_whitespace(c: char) -> (r: bool)
    ensures
        r == is_ws(c),
{
    ('\u{9}' <= c && c <= '\u{d}') || c == ' ' || c == '\u{85}' || c == '\u{a0}' || c == '\u{1680}'
        || ('\u{2000}' <= c && c <= '\u{200a}') || c == '\u{2028}' || c == '\u{2029}' || c
        == '\u{202f}' || c == '\u{205f}' || c == '\u{3000}'
}

/// First index at or after `i` that is not whitespace (or `s.len()`).
pub open spec fn ws_end_from(s: Seq<char>, i: int) -> int
    decreases s.len() - i,
{
    if 0 <= i < s.len() && is_ws(s[i]) {
        ws_end_from(s, i + 1)
    } else {
        i
    }
}

/// Smallest `k <= j` such that `s[k..j]` is all whitespace.
pub open spec fn ws_start_back(s: Seq<char>, j: int) -> int
    decreases j,
{
    if 0 < j <= s.len() && is_ws(s[j - 1]) {
        ws_start_back(s, j - 1)
    } else {
        j
    }
}

/// `str::trim_start`: drop leading whitespace.
pub open spec fn trim_start(s: Seq<char>) -> Seq<char> {
    s.subrange(ws_end_from(s, 0), s.len() as int)
}

/// `str::trim_end`: drop trailing whitespace.
pub open spec fn trim_end(s: Seq<char>) -> Seq<char> {
    s.subrange(0, ws_start_back(s, s.len() as int))
}

/// `str::trim`: drop leading and trailing whitespace.
pub open spec fn trim(s: Seq<char>) -> Seq<char> {
    trim_end(trim_start(s))
}

pub proof fn lemma_ws_end_from_bounds(s: Seq<char>, i: int)
    requires
        0 <= i <= s.len(),
    ensures
        i <= ws_end_from(s, i) <= s.len(),
        ws_end_from(s, i) < s.len() ==> !is_ws(s[ws_end_from(s, i)]),
        forall|k: int| i <= k < ws_end_from(s, i) ==> is_ws(s[k]),
    decreases s.len() - i,
{
    if i < s.len() && is_ws(s[i]) {
        lemma_ws_end_from_bounds(s, i + 1);
    }
}

pub proof fn lemma_ws_start_back_bounds(s: Seq<char>, j: int)
    requires
        0 <= j <= s.len(),
    ensures
        0 <= ws_start_back(s, j) <= j,
        ws_start_back(s, j) > 0 ==> !is_ws(s[ws_start_back(s, j) - 1]),
        forall|k: int| ws_start_back(s, j) <= k < j ==> is_ws(s[k]),
    decreases j,
{
    if j > 0 && is_ws(s[j - 1]) {
        lemma_ws_start_back_bounds(s, j - 1);
    }
}

/// Index of the first non-whitespace character (or `v.len()`).
pub fn skip_ws(v: &Vec<char>, i: usize) -> (r: usize)
    requires
        i <= v@.len(),
    ensures
        r == ws_end_from(v@, i as int),
        i <= r <= v@.len(),
{
    proof { lemma_ws_end_from_bounds(v@, i as int); }
    let mut k = i;
    while k < v.len() && is_whitespace(v[k])
        invariant
            i <= k <= v@.len(),
            ws_end_from(v@, k as int) == ws_end_from(v@, i as int),
        decreases v@.len() - k,
    {
        k = k + 1;
    }
    k
}

/// Index just past the last non-whitespace character before `j`.
pub fn skip_ws_back(v: &Vec<char>, j: usize) -> (r: usize)
    requires
        j <= v@.len(),
    ensures
        r == ws_start_back(v@, j as int),
        r <= j,
{
    proof { lemma_ws_start_back_bounds(v@, j as int); }
    let mut k = j;
    while k > 0 && is_whitespace(v[k - 1])
        invariant
            k <= j <= v@.len(),
            ws_start_back(v@, k as int) == ws_start_back(v@, j as int),
        decreases k,
    {
        k = k - 1;
    }
    k
}

/// `str::trim_start` on characters.
pub fn trim_start_chars(v: &Vec<char>) -> (r: Vec<char>)
    ensures
        r@ == trim_start(v@),
{
    let a = skip_ws(v, 0);
    copy_range(v, a, v.len())
}

/// `str::trim_end` on characters.
pub fn trim_end_chars(v: &Vec<char>) -> (r: Vec<char>)
    ensures
        r@ == trim_end(v@),
{
    let b = skip_ws_back(v, v.len());
    copy_range(v, 0, b)
}

/// `str::trim` on characters.
pub fn trim_chars(v: &Vec<char>) -> (r: Vec<char>)
    ensures
        r@ == trim(v@),
{
    let t = trim_start_chars(v);
    trim_end_chars(&t)
}

/// Whether every character is whitespace (equivalently, the trim is empty).
pub open spec fn all_ws(s: Seq<char>) -> bool {
    forall|k: int| 0 <= k < s.len() ==> is_ws(s[k])
}

pub proof fn lemma_trim_empty_iff_all_ws(s: Seq<char>)
    ensures
        (trim(s).len() == 0) <==> all_ws(s),
{
    lemma_ws_end_from_bounds(s, 0);
    let t = trim_start(s);
    lemma_ws_start_back_bounds(t, t.len() as int);
    if trim(s).len() == 0 {
        assert forall|k: int| 0 <= k < s.len() implies is_ws(s[k]) by {
            if k >= ws_end_from(s, 0) {
                assert(t[k - ws_end_from(s, 0)] == s[k]);
            }
        }
    }
    if all_ws(s) {
        if ws_end_from(s, 0) < s.len() {
            assert(is_ws(s[ws_end_from(s, 0)]));
        }
    }
}

/// Whether a character vector is empty after trimming.
pub fn is_blank(v: &Vec<char>) -> (r: bool)
    ensures
        r == (trim(v@).len() == 0),
        r == all_ws(v@),
{
    proof { lemma_trim_empty_iff_all_ws(v@); }
    let t = trim_chars(v);
    t.len() == 0
}

// ---------------------------------------------------------------------------
// Lines (`str::lines`)
// ---------------------------------------------------------------------------

/// Index of the first `'\n'` at or after `i` (or `s.len()`).
pub open spec fn nl_from(s: Seq<char>, i: int) -> int
    decreases s.len() - i,
{
    if 0 <= i < s.len() && s[i] != '\n' {
        nl_from(s, i + 1)
    } else {
        i
    }
}

pub proof fn lemma_nl_from_bounds(s: Seq<char>, i: int)
    requires
        0 <= i <= s.len(),
    ensures
        i <= nl_from(s, i) <= s.len(),
        nl_from(s, i) < s.len() ==> s[nl_from(s, i)] == '\n',
        forall|k: int| i <= k < nl_from(s, i) ==> s[k] != '\n',
    decreases s.len() - i,
{
    if i < s.len() && s[i] != '\n' {
        lemma_nl_from_bounds(s, i + 1);
    }
}

/// The line starting at `i`: up to the next `'\n'`, with one `'\r'` removed
/// when it directly precedes that `'\n'`.
pub open spec fn line_at(s: Seq<char>, i: int) -> Seq<char> {
    let e = nl_from(s, i);
    let raw = s.subrange(i, e);
    if e < s.len() && raw.len() > 0 && raw.last() == '\r' {
        raw.drop_last()
    } else {
        raw
    }
}

/// The lines of `s` from position `i` on, as `str::lines` yields them.
pub open spec fn lines_from(s: Seq<char>, i: int) -> Seq<Seq<char>>
    decreases s.len() + 1 - i,
{
    if 0 <= i < s.len() {
        proof { lemma_nl_from_bounds(s, i); }
        seq![line_at(s, i)] + lines_from(s, nl_from(s, i) + 1)
    } else {
        Seq::empty()
    }
}

/// `str::lines`.
pub open spec fn lines(s: Seq<char>) -> Seq<Seq<char>> {
    lines_from(s, 0)
}

/// The views of a vector of character vectors.
pub open spec fn views(v: Seq<Vec<char>>) -> Seq<Seq<char>> {
    v.map_values(|l: Vec<char>| l@)
}

/// Index of the next `'\n'` at or after `i`.
pub fn next_newline(v: &Vec<char>, i: usize) -> (r: usize)
    requires
        i <= v@.len(),
    ensures
        r == nl_from(v@, i as int),
        i <= r <= v@.len(),
{
    proof { lemma_nl_from_bounds(v@, i as int); }
    let mut k = i;
    while k < v.len() && v[k] != '\n'
        invariant
            i <= k <= v@.len(),
            nl_from(v@, k as int) == nl_from(v@, i as int),
        decreases v@.len() - k,
    {
        k = k + 1;
    }
    k
}

/// The line that starts at `i`.
pub fn line_at_exec(v: &Vec<char>, i: usize) -> (r: Vec<char>)
    requires
        i <= v@.len(),
    ensures
        r@ == line_at(v@, i as int),
{
    let e = next_newline(v, i);
    if e < v.len() && e > i && v[e - 1] == '\r' {
        let r = copy_range(v, i, e - 1);
        assert(r@ =~= v@.subrange(i as int, e as int).drop_last());
        r
    } else {
        copy_range(v, i, e)
    }
}

/// All lines of `v` (`str::lines`).
pub fn lines_of(v: &Vec<char>) -> (r: Vec<Vec<char>>)
    ensures
        views(r@) == lines(v@),
{
    let mut out: Vec<Vec<char>> = Vec::new();
    let mut pos: usize = 0;
    while pos < v.len()
        invariant
            pos <= v@.len(),
            lines(v@) == views(out@) + lines_from(v@, pos as int),
        decreases v@.len() - pos,
    {
        let line = line_at_exec(v, pos);
        let e = next_newline(v, pos);
        let ghost prev = out@;
        out.push(line);
        proof {
            assert(views(out@) =~= views(prev).push(line@));
            assert(lines_from(v@, pos as int) == seq![line@] + lines_from(v@, e + 1));
            assert(views(prev) + lines_from(v@, pos as int) =~= views(out@) + lines_from(v@, e + 1));
        }
        if e < v.len() {
            pos = e + 1;
        } else {
            assert(lines_from(v@, e + 1) =~= lines_from(v@, v@.len() as int));
            pos = v.len();
        }
    }
    assert(lines_from(v@, pos as int) =~= Seq::<Seq<char>>::empty());
    assert(lines(v@) =~= views(out@));
    out
}

/// The first line of `s` (empty when `s` is empty), as
/// `s.lines().next().unwrap_or(s)` yields it.
pub open spec fn first_line(s: Seq<char>) -> Seq<char> {
    if s.len() == 0 {
        s
    } else {
        line_at(s, 0)
    }
}

pub fn first_line_exec(v: &Vec<char>) -> (r: Vec<char>)
    ensures
        r@ == first_line(v@),
{
    if v.len() == 0 {
        Vec::new()
    } else {
        line_at_exec(v, 0)
    }
}

// ---------------------------------------------------------------------------
// Searching
// ---------------------------------------------------------------------------

/// `n` occurs in `h` at position `i`.
pub open spec fn matches_at(h: Seq<char>, n: Seq<char>, i: int) -> bool {
    0 <= i && i + n.len() <= h.len() && h.subrange(i, i + n.len()) == n
}

/// `str::starts_with`.
pub open spec fn starts_with(h: Seq<char>, n: Seq<char>) -> bool {
    matches_at(h, n, 0)
}

/// `str::ends_with`.
pub open spec fn ends_with(h: Seq<char>, n: Seq<char>) -> bool {
    n.len() <= h.len() && matches_at(h, n, h.len() - n.len())
}

/// First occurrence of `n` in `h` at or after `i`.
pub open spec fn find_from(h: Seq<char>, n: Seq<char>, i: int) -> Option<int>
    decreases h.len() + 1 - i,
{
    if i < 0 || i + n.len() > h.len() {
        None
    } else if matches_at(h, n, i) {
        Some(i)
    } else {
        find_from(h, n, i + 1)
    }
}

/// `str::find`.
pub open spec fn find(h: Seq<char>, n: Seq<char>) -> Option<int> {
    find_from(h, n, 0)
}

/// Last occurrence of `n` in `h` at or before `i`.
pub open spec fn rfind_from(h: Seq<char>, n: Seq<char>, i: int) -> Option<int>
    decreases i + 1,
{
    if i < 0 {
        None
    } else if matches_at(h, n, i) {
        Some(i)
    } else {
        rfind_from(h, n, i - 1)
    }
}

/// `str::rfind`.
pub open spec fn rfind(h: Seq<char>, n: Seq<char>) -> Option<int> {
    rfind_from(h, n, h.len() - n.len())
}

pub proof fn lemma_find_from_bounds(h: Seq<char>, n: Seq<char>, i: int)
    ensures
        find_from(h, n, i) matches Some(k) ==> i <= k && matches_at(h, n, k),
    decreases h.len() + 1 - i,
{
    if i < 0 || i + n.len() > h.len() {
    } else if matches_at(h, n, i) {
    } else {
        lemma_find_from_bounds(h, n, i + 1);
    }
}

pub proof fn lemma_rfind_from_bounds(h: Seq<char>, n: Seq<char>, i: int)
    ensures
        rfind_from(h, n, i) matches Some(k) ==> k <= i && matches_at(h, n, k),
    decreases i + 1,
{
    if i >= 0 && !matches_at(h, n, i) {
        lemma_rfind_from_bounds(h, n, i - 1);
    }
}

/// Whether `n` occurs in `h` at position `i`.
pub fn matches_at_exec(h: &Vec<char>, n: &Vec<char>, i: usize) -> (r: bool)
    ensures
        r == matches_at(h@, n@, i as int),
{
    if i > h.len() || n.len() > h.len() - i {
        return false;
    }
    let mut k: usize = 0;
    while k < n.len()
        invariant
            i + n@.len() <= h@.len(),
            k <= n@.len(),
            forall|j: int| 0 <= j < k ==> h@[i + j] == n@[j],
        decreases n@.len() - k,
    {
        assert(i + k < h.len());
        if h[i + k] != n[k] {
            assert(h@.subrange(i as int, i + n@.len())[k as int] != n@[k as int]);
            return false;
        }
        k = k + 1;
    }
    assert(h@.subrange(i as int, i + n@.len()) =~= n@);
    true
}

/// `starts_with` on characters.
pub fn starts_with_exec(h: &Vec<char>, n: &Vec<char>) -> (r: bool)
    ensures
        r == starts_with(h@, n@),
{
    matches_at_exec(h, n, 0)
}

/// `ends_with` on characters.
pub fn ends_with_exec(h: &Vec<char>, n: &Vec<char>) -> (r: bool)
    ensures
        r == ends_with(h@, n@),
{
    if n.len() > h.len() {
        false
    } else {
        matches_at_exec(h, n, h.len() - n.len())
    }
}

/// First occurrence of `n` in `h` at or after `i`.
pub fn find_from_exec(h: &Vec<char>, n: &Vec<char>, i: usize) -> (r: Option<usize>)
    ensures
        r matches Some(k) ==> find_from(h@, n@, i as int) == Some(k as int),
        r is None ==> find_from(h@, n@, i as int) is None,
{
    let mut k = i;
    while k <= h.len() && n.len() <= h.len() - k
        invariant
            i <= k,
            find_from(h@, n@, k as int) == find_from(h@, n@, i as int),
        decreases h@.len() + 1 - k,
    {
        if matches_at_exec(h, n, k) {
            return Some(k);
        }
        proof {
            if n@.len() == 0 {
                assert(h@.subrange(k as int, k as int) =~= n@);
            }
        }
        k = k + 1;
    }
    None
}

/// `str::find` on characters.
pub fn find_exec(h: &Vec<char>, n: &Vec<char>) -> (r: Option<usize>)
    ensures
        r matches Some(k) ==> find(h@, n@) == Some(k as int),
        r is None ==> find(h@, n@) is None,
{
    find_from_exec(h, n, 0)
}

/// `str::rfind` on characters.
pub fn rfind_exec(h: &Vec<char>, n: &Vec<char>) -> (r: Option<usize>)
    ensures
        r matches Some(k) ==> rfind(h@, n@) == Some(k as int),
        r is None ==> rfind(h@, n@) is None,
{
    if n.len() > h.len() {
        return None;
    }
    let mut k: usize = h.len() - n.len();
    loop
        invariant
            k <= h@.len() - n@.len(),
            rfind_from(h@, n@, k as int) == rfind(h@, n@),
        decreases k,
    {
        if matches_at_exec(h, n, k) {
            return Some(k);
        }
        if k == 0 {
            assert(rfind_from(h@, n@, -1) is None);
            return None;
        }
        k = k - 1;
    }
}

// ---------------------------------------------------------------------------
// Counting and truncation
// ---------------------------------------------------------------------------

/// The first `n` characters (all of them when shorter), as
/// `s.chars().take(n).collect()`.
pub open spec fn take_chars(s: Seq<char>, n: int) -> Seq<char> {
    if s.len() <= n {
        s
    } else {
        s.take(n)
    }
}

pub fn take_chars_exec(v: &Vec<char>, n: usize) -> (r: Vec<char>)
    ensures
        r@ == take_chars(v@, n as int),
{
    if v.len() <= n {
        copy_range(v, 0, v.len())
    } else {
        copy_range(v, 0, n)
    }
}

// ---------------------------------------------------------------------------
// Joining
// ---------------------------------------------------------------------------

/// `parts.join(sep)`.
pub open spec fn join(parts: Seq<Seq<char>>, sep: Seq<char>) -> Seq<char>
    decreases parts.len(),
{
    if parts.len() == 0 {
        Seq::empty()
    } else if parts.len() == 1 {
        parts[0]
    } else {
        join(parts.drop_last(), sep) + sep + parts.last()
    }
}

/// `parts.join(sep)` on character vectors.
pub fn join_exec(parts: &Vec<Vec<char>>, sep: &Vec<char>) -> (r: Vec<char>)
    ensures
        r@ == join(views(parts@), sep@),
{
    let mut out: Vec<char> = Vec::new();
    let mut i: usize = 0;
    while i < parts.len()
        invariant
            i <= parts@.len(),
            out@ == join(views(parts@).take(i as int), sep@),
        decreases parts@.len() - i,
    {
        let ghost pre = views(parts@).take(i as int);
        let ghost next = views(parts@).take(i + 1);
        assert(next.drop_last() =~= pre);
        assert(next.last() == parts@[i as int]@);
        if i > 0 {
            append_chars(&mut out, sep);
        } else {
            assert(pre =~= Seq::<Seq<char>>::empty());
        }
        append_chars(&mut out, &parts[i]);
        i = i + 1;
    }
    assert(views(parts@).take(parts@.len() as int) =~= views(parts@));
    out
}

// ---------------------------------------------------------------------------
// Ordering
// ---------------------------------------------------------------------------

/// Lexicographic "less than" by code point from position `i` on. For
/// `str` this is the same order as byte-wise comparison of the UTF-8
/// encodings, which is how `str` implements `Ord`.
pub open spec fn lex_lt_at(a: Seq<char>, b: Seq<char>, i: int) -> bool
    decreases a.len() - i,
{
    if i < 0 || i >= a.len() {
        0 <= i < b.len()
    } else if i >= b.len() {
        false
    } else if a[i] != b[i] {
        (a[i] as int) < (b[i] as int)
    } else {
        lex_lt_at(a, b, i + 1)
    }
}

/// `a < b` as strings.
pub open spec fn lex_lt(a: Seq<char>, b: Seq<char>) -> bool {
    lex_lt_at(a, b, 0)
}

/// `a < b` on character vectors, lexicographically by code point.
pub fn lex_lt_exec(a: &Vec<char>, b: &Vec<char>) -> (r: bool)
    ensures
        r == lex_lt(a@, b@),
{
    let mut i: usize = 0;
    while i < a.len() && i < b.len() && a[i] == b[i]
        invariant
            i <= a@.len(),
            i <= b@.len(),
            lex_lt_at(a@, b@, i as int) == lex_lt(a@, b@),
        decreases a@.len() - i,
    {
        i = i + 1;
    }
    if i >= a.len() {
        i < b.len()
    } else if i >= b.len() {
        false
    } else {
        a[i] < b[i]
    }
}

proof fn lemma_lex_lt_at_irreflexive(a: Seq<char>, i: int)
    requires
        0 <= i,
    ensures
        !lex_lt_at(a, a, i),
    decreases a.len() - i,
{
    if i < a.len() {
        lemma_lex_lt_at_irreflexive(a, i + 1);
    }
}

proof fn lemma_lex_lt_at_asymmetric(a: Seq<char>, b: Seq<char>, i: int)
    requires
        0 <= i,
    ensures
        !(lex_lt_at(a, b, i) && lex_lt_at(b, a, i)),
    decreases a.len() - i,
{
    if i < a.len() && i < b.len() && a[i] == b[i] {
        lemma_lex_lt_at_asymmetric(a, b, i + 1);
    }
}

proof fn lemma_lex_lt_at_total(a: Seq<char>, b: Seq<char>, i: int)
    requires
        0 <= i <= a.len(),
        i <= b.len(),
        a.subrange(0, i) == b.subrange(0, i),
    ensures
        lex_lt_at(a, b, i) || lex_lt_at(b, a, i) || a == b,
    decreases a.len() - i,
{
    if i < a.len() && i < b.len() && a[i] == b[i] {
        assert(a.subrange(0, i + 1) =~= a.subrange(0, i).push(a[i]));
        assert(b.subrange(0, i + 1) =~= b.subrange(0, i).push(b[i]));
        lemma_lex_lt_at_total(a, b, i + 1);
    } else if i == a.len() && i == b.len() {
        assert(a =~= a.subrange(0, i));
        assert(b =~= b.subrange(0, i));
    } else if i < a.len() && i < b.len() {
        assert((a[i] as int) != (b[i] as int));
    }
}

proof fn lemma_lex_lt_at_transitive(a: Seq<char>, b: Seq<char>, c: Seq<char>, i: int)
    requires
        0 <= i,
        lex_lt_at(a, b, i),
        lex_lt_at(b, c, i),
    ensures
        lex_lt_at(a, c, i),
    decreases a.len() - i,
{
    if i < a.len() && i < b.len() && i < c.len() && a[i] == b[i] && b[i] == c[i] {
        lemma_lex_lt_at_transitive(a, b, c, i + 1);
    }
}

/// String order is transitive.
pub proof fn law_lex_order_transitive(a: Seq<char>, b: Seq<char>, c: Seq<char>)
    requires
        lex_lt(a, b),
        lex_lt(b, c),
    ensures
        lex_lt(a, c),
{
    lemma_lex_lt_at_transitive(a, b, c, 0);
}

/// String order is a strict total order: irreflexive, asymmetric, and any
/// two distinct strings are comparable.
pub proof fn law_lex_order_strict_total(a: Seq<char>, b: Seq<char>)
    ensures
        !lex_lt(a, a),
        !(lex_lt(a, b) && lex_lt(b, a)),
        lex_lt(a, b) || lex_lt(b, a) || a == b,
{
    lemma_lex_lt_at_irreflexive(a, 0);
    lemma_lex_lt_at_asymmetric(a, b, 0);
    assert(a.subrange(0, 0) =~= b.subrange(0, 0));
    lemma_lex_lt_at_total(a, b, 0);
}

/// `s` holds no line feed.
pub open spec fn no_nl(s: Seq<char>) -> bool {
    forall|k: int| 0 <= k < s.len() ==> s[k] != '\n'
}

/// A line feed at `j` ends the line `l` that starts at `i`.
pub proof fn lemma_line_step(s: Seq<char>, i: int, j: int, l: Seq<char>)
    requires
        0 <= i <= j < s.len(),
        s.subrange(i, j) == l,
        no_nl(l),
        s[j] == '\n',
        l.len() == 0 || l.last() != '\r',
    ensures
        lines_from(s, i) == seq![l] + lines_from(s, j + 1),
{
    lemma_nl_from_bounds(s, i);
    let e = nl_from(s, i);
    if e < j {
        assert(l[e - i] == s[e]);
    }
    if e > j {
        assert(s[j] != '\n');
    }
    assert(e == j);
    assert(line_at(s, i) == l);
}

/// Every line of `s` from `i` on is free of line feeds.
pub proof fn lemma_lines_no_nl(s: Seq<char>, i: int)
    ensures
        forall|k: int| 0 <= k < lines_from(s, i).len() ==> no_nl(#[trigger] lines_from(s, i)[k]),
    decreases s.len() + 1 - i,
{
    if 0 <= i < s.len() {
        lemma_nl_from_bounds(s, i);
        lemma_lines_no_nl(s, nl_from(s, i) + 1);
        let l = line_at(s, i);
        let raw = s.subrange(i, nl_from(s, i));
        assert(no_nl(raw));
        assert(no_nl(l));
        let rest = lines_from(s, nl_from(s, i) + 1);
        assert forall|k: int| 0 <= k < lines_from(s, i).len() implies no_nl(#[trigger] lines_from(s, i)[k]) by {
            if k > 0 {
                assert(lines_from(s, i)[k] == rest[k - 1]);
            }
        }
    }
}

/// Trimming keeps a line free of line feeds.
pub proof fn lemma_trim_no_nl(x: Seq<char>)
    requires
        no_nl(x),
    ensures
        no_nl(trim(x)),
{
    lemma_ws_end_from_bounds(x, 0);
    let t = trim_start(x);
    lemma_ws_start_back_bounds(t, t.len() as int);
    assert(no_nl(t));
}

/// Parts free of line feeds joined by a separator free of them.
pub proof fn lemma_join_no_nl(parts: Seq<Seq<char>>, sep: Seq<char>)
    requires
        no_nl(sep),
        forall|k: int| 0 <= k < parts.len() ==> no_nl(#[trigger] parts[k]),
    ensures
        no_nl(join(parts, sep)),
    decreases parts.len(),
{
    if parts.len() > 1 {
        lemma_join_no_nl(parts.drop_last(), sep);
        let a = join(parts.drop_last(), sep);
        let b = parts.last();
        assert(no_nl(b));
        assert forall|k: int| 0 <= k < (a + sep + b).len() implies (a + sep + b)[k] != '\n' by {
            if k < a.len() {
            } else if k < a.len() + sep.len() {
                assert((a + sep + b)[k] == sep[k - a.len()]);
            } else {
                assert((a + sep + b)[k] == b[k - a.len() - sep.len()]);
            }
        }
    } else if parts.len() == 1 {
        assert(no_nl(parts[0]));
    }
}

/// A line whose first and last characters are not whitespace is its own trim.
pub proof fn lemma_trim_id(x: Seq<char>)
    requires
        x.len() > 0,
        !is_ws(x[0]),
        !is_ws(x.last()),
    ensures
        trim(x) == x,
{
    assert(ws_end_from(x, 0) == 0);
    assert(x.subrange(0, x.len() as int) =~= x);
    assert(ws_start_back(x, x.len() as int) == x.len());
}

/// Trimming a line that starts with a non-whitespace character keeps that
/// first character.
pub proof fn lemma_trim_first(x: Seq<char>)
    requires
        x.len() > 0,
        !is_ws(x[0]),
    ensures
        trim(x).len() > 0,
        trim(x)[0] == x[0],
{
    assert(ws_end_from(x, 0) == 0);
    assert(x.subrange(0, x.len() as int) =~= x);
    lemma_ws_start_back_bounds(x, x.len() as int);
    if ws_start_back(x, x.len() as int) == 0 {
        assert(is_ws(x[0]));
    }
}

/// A space followed by characters none of which is whitespace trims to them.
pub proof fn lemma_trim_space_prefix(w: Seq<char>)
    requires
        forall|k: int| 0 <= k < w.len() ==> !is_ws(#[trigger] w[k]),
    ensures
        trim(seq![' '] + w) == w,
{
    let x = seq![' '] + w;
    assert(x[0] == ' ');
    if w.len() > 0 {
        assert(x[1] == w[0]);
        assert(ws_end_from(x, 1) == 1);
        assert(ws_end_from(x, 0) == 1);
        assert(trim_start(x) =~= w);
        assert(w.subrange(0, w.len() as int) =~= w);
        assert(!is_ws(w[w.len() - 1]));
        assert(ws_start_back(w, w.len() as int) == w.len());
    } else {
        assert(ws_end_from(x, 1) == 1);
        assert(ws_end_from(x, 0) == 1);
        assert(trim_start(x) =~= w);
    }
}

/// `s` is in ascending string order.
pub open spec fn strings_sorted(s: Seq<String>) -> bool {
    forall|p: int, q: int| 0 <= p < q < s.len() ==> !lex_lt(#[trigger] s[q]@, #[trigger] s[p]@)
}

fn str_lt(a: &String, b: &String) -> (r: bool)
    ensures
        r == lex_lt(a@, b@),
{
    let av = chars_of(a.as_str());
    let bv = chars_of(b.as_str());
    lex_lt_exec(&av, &bv)
}

/// The character sequences of a list of strings.
pub open spec fn string_views(s: Seq<String>) -> Seq<Seq<char>> {
    s.map_values(|x: String| x@)
}

/// The strings in ascending order (as `sort` on `Vec<String>` orders
/// them): the same strings, each as often as before.
pub fn sort_strings(v: Vec<String>) -> (r: Vec<String>)
    ensures
        string_views(r@).to_multiset() == string_views(v@).to_multiset(),
        strings_sorted(r@),
{
    let ghost s0 = v@;
    let mut rest = v;
    let mut out: Vec<String> = Vec::new();
    let mut i: usize = 0;
    assert(string_views(s0.take(0)) =~= string_views(out@));
    assert(s0.len() == rest.len());
    while rest.len() > 0
        invariant
            s0.len() <= usize::MAX,
            i <= s0.len(),
            rest@ == s0.subrange(i as int, s0.len() as int),
            string_views(out@).to_multiset() == string_views(s0.take(i as int)).to_multiset(),
            strings_sorted(out@),
        decreases rest@.len(),
    {
        let x = rest.remove(0);
        assert(x == s0[i as int]);
        let ghost o = out@;
        let mut p: usize = 0;
        while p < out.len() && !str_lt(&x, &out[p])
            invariant
                out@ == o,
                p <= o.len(),
                forall|q: int| 0 <= q < p ==> !lex_lt(x@, #[trigger] o[q]@),
            decreases o.len() - p,
        {
            p = p + 1;
        }
        out.insert(p, x);
        proof {
            let t = out@;
            assert forall|a: int, b: int| 0 <= a < b < t.len() implies !lex_lt(
                #[trigger] t[b]@,
                #[trigger] t[a]@,
            ) by {
                if b < p {
                    assert(t[b] == o[b] && t[a] == o[a]);
                } else if b == p {
                    assert(t[a] == o[a]);
                } else {
                    assert(t[b] == o[b - 1]);
                    if a < p {
                        assert(t[a] == o[a]);
                    } else if a == p {
                        assert(lex_lt(x@, o[p as int]@));
                        if lex_lt(o[b - 1]@, x@) {
                            law_lex_order_transitive(o[b - 1]@, x@, o[p as int]@);
                            law_lex_order_strict_total(o[p as int]@, o[p as int]@);
                        }
                    } else {
                        assert(t[a] == o[a - 1]);
                    }
                }
            }
            assert(string_views(s0.take(i + 1)) =~= string_views(s0.take(i as int)).push(x@));
            vstd::seq_lib::to_multiset_build(string_views(s0.take(i as int)), x@);
            assert(string_views(t) =~= string_views(o).insert(p as int, x@));
            vstd::seq_lib::to_multiset_insert(string_views(o), p as int, x@);
        }
        i = i + 1;
        assert(rest@ =~= s0.subrange(i as int, s0.len() as int));
    }
    assert(s0.take(i as int) =~= s0);
    out
}

/// The characters of a literal, checked against its view.
pub fn lit(s: &str) -> (r: Vec<char>)
    ensures
        r@ == s@,
{
    chars_of(s)
}

} // verus!
