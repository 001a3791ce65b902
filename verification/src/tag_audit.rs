//! Tag fragmentation audit: raw tag use counts across units, variants that
//! share a normal form, and bulk tag-entropy statistics.
use vstd::prelude::*;
use crate::text;
use crate::text::{append_chars, chars_eq, chars_of, lex_lt_exec, lit, string_of, trim_chars};
use crate::wordset;
use crate::cluster;
use crate::lint;
use crate::lint::{decimal_chars, normalize_tag};
use crate::model::UnitCore;

verus! {

broadcast use vstd::string::group_string_axioms;

/// Fewest total uses for a group of variants to be reported.
pub const TAG_VARIANT_MIN_USES: usize = 3;

/// Bulk statistics over tag uses.
#[derive(Debug, Clone, Copy, PartialEq, Eq)]
pub struct TagStats {
    pub distinct: usize,
    pub total_uses: usize,
    pub singletons: usize,
    pub low_use: usize,
}

/// One spelling of a tag and how often it is used.
#[derive(Debug, Clone)]
pub struct TagVariant {
    pub tag: String,
    pub uses: usize,
}

/// Tags that share a normal form.
#[derive(Debug, Clone)]
pub struct TagVariantFinding {
    pub canonical: String,
    pub variants: Vec<TagVariant>,
    pub total_uses: usize,
    pub reason: String,
}

// ---------------------------------------------------------------------------
// Tag uses
// ---------------------------------------------------------------------------

/// Trimmed, non-empty forms of the first `k` tags.
pub open spec fn trimmed_tags(tags: Seq<String>, k: int) -> Seq<Seq<char>>
    decreases k,
{
    if k <= 0 {
        Seq::empty()
    } else {
        let prev = trimmed_tags(tags, k - 1);
        let t = text::trim(tags[k - 1]@);
        if t.len() > 0 {
            prev.push(t)
        } else {
            prev
        }
    }
}

/// Every tag use of the first `k` units (trimmed, blanks skipped), in order.
pub open spec fn all_uses(us: Seq<UnitCore>, k: int) -> Seq<Seq<char>>
    decreases k,
{
    if k <= 0 {
        Seq::empty()
    } else {
        all_uses(us, k - 1) + trimmed_tags(us[k - 1].tags@, us[k - 1].tags@.len() as int)
    }
}

pub open spec fn uses(us: Seq<UnitCore>) -> Seq<Seq<char>> {
    all_uses(us, us.len() as int)
}

/// Distinct tags, in order of first use.
pub open spec fn distinct_tags(us: Seq<UnitCore>) -> Seq<Seq<char>> {
    wordset::dedup(uses(us))
}

/// How often tag `t` is used.
pub open spec fn uses_of(us: Seq<UnitCore>, t: Seq<char>) -> int {
    cluster::occurrences(uses(us), t)
}

fn collect_uses(units: &Vec<UnitCore>) -> (r: Vec<Vec<char>>)
    ensures
        text::views(r@) == uses(units@),
{
    let mut out: Vec<Vec<char>> = Vec::new();
    let mut i: usize = 0;
    assert(text::views(out@) =~= all_uses(units@, 0));
    while i < units.len()
        invariant
            i <= units@.len(),
            text::views(out@) == all_uses(units@, i as int),
        decreases units@.len() - i,
    {
        let tags = &units[i].tags;
        let ghost base = text::views(out@);
        let mut j: usize = 0;
        assert(base + trimmed_tags(tags@, 0) =~= base);
        while j < tags.len()
            invariant
                j <= tags@.len(),
                tags@ == units@[i as int].tags@,
                text::views(out@) == base + trimmed_tags(tags@, j as int),
            decreases tags@.len() - j,
        {
            let t = trim_chars(&chars_of(tags[j].as_str()));
            if t.len() > 0 {
                let ghost before = text::views(out@);
                out.push(t);
                assert(text::views(out@) =~= before.push(t@));
                assert(base + trimmed_tags(tags@, j + 1) =~= (base + trimmed_tags(tags@, j as int)).push(t@));
            }
            j = j + 1;
        }
        i = i + 1;
    }
    out
}

proof fn lemma_occurrences_absent(s: Seq<Seq<char>>, w: Seq<char>)
    requires
        !s.contains(w),
    ensures
        cluster::occurrences(s, w) == 0,
    decreases s.len(),
{
    if s.len() > 0 {
        assert(!s.drop_last().contains(w)) by {
            if s.drop_last().contains(w) {
                let k = choose|k: int| 0 <= k < s.drop_last().len() && s.drop_last()[k] == w;
                assert(s[k] == w);
            }
        }
        lemma_occurrences_absent(s.drop_last(), w);
    }
}

proof fn lemma_occurrences_le(s: Seq<Seq<char>>, w: Seq<char>)
    ensures
        cluster::occurrences(s, w) <= s.len(),
    decreases s.len(),
{
    if s.len() > 0 {
        lemma_occurrences_le(s.drop_last(), w);
    }
}

/// The distinct words of `all` in order of first occurrence, with how
/// often each occurs.
fn count_words(all: &Vec<Vec<char>>) -> (r: (Vec<Vec<char>>, Vec<usize>))
    ensures
        text::views(r.0@) == wordset::dedup(text::views(all@)),
        r.1@.len() == r.0@.len(),
        forall|i: int|
            0 <= i < r.1@.len() ==> #[trigger] r.1@[i] as int == cluster::occurrences(
                text::views(all@),
                r.0@[i]@,
            ),
{
    let ghost av = text::views(all@);
    let mut keys: Vec<Vec<char>> = Vec::new();
    let mut counts: Vec<usize> = Vec::new();
    let mut p: usize = 0;
    assert(text::views(keys@) =~= wordset::dedup(av.take(0)));
    while p < all.len()
        invariant
            p <= all@.len(),
            av == text::views(all@),
            text::views(keys@) == wordset::dedup(av.take(p as int)),
            counts@.len() == keys@.len(),
            forall|i: int|
                0 <= i < counts@.len() ==> #[trigger] counts@[i] as int == cluster::occurrences(
                    av.take(p as int),
                    keys@[i]@,
                ),
        decreases all@.len() - p,
    {
        let w = &all[p];
        let ghost pre = av.take(p as int);
        let ghost nxt = av.take(p + 1);
        proof {
            assert(nxt.drop_last() =~= pre);
            assert(nxt.last() == w@);
            wordset::lemma_dedup_props(pre);
        }
        let mut f: usize = 0;
        let mut found = false;
        while f < keys.len() && !found
            invariant
                f <= keys@.len(),
                found ==> f < keys@.len() && keys@[f as int]@ == w@,
                !found ==> forall|j: int| 0 <= j < f ==> #[trigger] keys@[j]@ != w@,
            decreases keys@.len() - f, if found { 0int } else { 1int },
        {
            if chars_eq(&keys[f], w) {
                found = true;
            } else {
                f = f + 1;
            }
        }
        if found {
            proof {
                lemma_occurrences_le(pre, w@);
                assert(text::views(keys@)[f as int] == w@);
            }
            let c = counts[f];
            counts.set(f, c + 1);
            proof {
                assert(text::views(keys@).contains(w@));
                assert(wordset::dedup(nxt) == wordset::dedup(pre));
                assert forall|i: int| 0 <= i < counts@.len() implies #[trigger] counts@[i] as int
                    == cluster::occurrences(nxt, keys@[i]@) by {
                    if i != f {
                        assert(text::views(keys@)[i] != text::views(keys@)[f as int]);
                    }
                }
            }
        } else {
            proof {
                assert(!text::views(keys@).contains(w@)) by {
                    if text::views(keys@).contains(w@) {
                        let j = choose|j: int| 0 <= j < text::views(keys@).len() && text::views(keys@)[j] == w@;
                        assert(keys@[j]@ == w@);
                    }
                }
                assert(!pre.contains(w@));
                lemma_occurrences_absent(pre, w@);
            }
            let ghost kv = text::views(keys@);
            keys.push(w.clone());
            counts.push(1);
            proof {
                assert(text::views(keys@) =~= kv.push(w@));
                assert forall|i: int| 0 <= i < counts@.len() implies #[trigger] counts@[i] as int
                    == cluster::occurrences(nxt, keys@[i]@) by {
                    if i < kv.len() {
                        assert(kv[i] != w@) by {
                            assert(kv.contains(kv[i]));
                        }
                    }
                }
            }
        }
        p = p + 1;
    }
    assert(av.take(all@.len() as int) =~= av);
    (keys, counts)
}

// ---------------------------------------------------------------------------
// Variant groups
// ---------------------------------------------------------------------------

pub open spec fn norm(t: Seq<char>) -> Seq<char> {
    lint::normalize_tag_spec(t)
}

/// Distinct non-empty normal forms of the first `k` tags of `d`, in order
/// of first appearance.
pub open spec fn canon_list(d: Seq<Seq<char>>, k: int) -> Seq<Seq<char>>
    decreases k,
{
    if k <= 0 {
        Seq::empty()
    } else if norm(d[k - 1]).len() > 0 {
        wordset::add_word(canon_list(d, k - 1), norm(d[k - 1]))
    } else {
        canon_list(d, k - 1)
    }
}

/// Positions below `k` of the tags of `d` whose normal form is `c`.
pub open spec fn bucket_ids(d: Seq<Seq<char>>, c: Seq<char>, k: int) -> Seq<int>
    decreases k,
{
    if k <= 0 {
        Seq::empty()
    } else if norm(d[k - 1]) == c {
        bucket_ids(d, c, k - 1).push(k - 1)
    } else {
        bucket_ids(d, c, k - 1)
    }
}

/// Number of uses below `k` whose normal form is `c`.
pub open spec fn norm_total(a: Seq<Seq<char>>, c: Seq<char>, k: int) -> int
    decreases k,
{
    if k <= 0 {
        0
    } else {
        norm_total(a, c, k - 1) + if norm(a[k - 1]) == c {
            1int
        } else {
            0int
        }
    }
}

/// `x` is listed strictly before `e`: more uses, or as many and a smaller
/// tag.
pub open spec fn variant_before(x: (Seq<char>, int), e: (Seq<char>, int)) -> bool {
    x.1 > e.1 || (x.1 == e.1 && text::lex_lt(x.0, e.0))
}

pub open spec fn variant_insert_pos(s: Seq<(Seq<char>, int)>, x: (Seq<char>, int), i: int) -> int
    decreases s.len() - i,
{
    if i < 0 || i >= s.len() {
        i
    } else if variant_before(x, s[i]) {
        i
    } else {
        variant_insert_pos(s, x, i + 1)
    }
}

/// Variants with the most used first, ties by tag.
pub open spec fn sorted_variants(s: Seq<(Seq<char>, int)>) -> Seq<(Seq<char>, int)>
    decreases s.len(),
{
    if s.len() == 0 {
        Seq::empty()
    } else {
        let sorted = sorted_variants(s.drop_last());
        sorted.insert(variant_insert_pos(sorted, s.last(), 0), s.last())
    }
}

/// `tag(uses)`.
pub open spec fn variant_text(v: (Seq<char>, int)) -> Seq<char> {
    v.0 + seq!['('] + lint::decimal(v.1 as nat) + seq![')']
}

/// `N variants share normalized form `C`: t1(n1), t2(n2)`.
pub open spec fn variant_reason(c: Seq<char>, vs: Seq<(Seq<char>, int)>) -> Seq<char> {
    lint::decimal(vs.len()) + " variants share normalized form `"@ + c + "`: "@ + text::join(
        vs.map_values(|v: (Seq<char>, int)| variant_text(v)),
        ", "@,
    )
}

/// The finding for canonical form `c`, if its variants qualify: at least
/// two variants and at least the minimum number of uses in all.
pub open spec fn group_finding(us: Seq<UnitCore>, c: Seq<char>) -> Option<
    (Seq<char>, Seq<(Seq<char>, int)>, int, Seq<char>),
> {
    let d = distinct_tags(us);
    let ids = bucket_ids(d, c, d.len() as int);
    let total = norm_total(uses(us), c, uses(us).len() as int);
    if ids.len() >= 2 && total >= TAG_VARIANT_MIN_USES {
        let vs = sorted_variants(ids.map_values(|i: int| (d[i], uses_of(us, d[i]))));
        Some((c, vs, total, variant_reason(c, vs)))
    } else {
        None
    }
}

/// Findings of the first `k` canonical forms, in canonical order.
pub open spec fn raw_findings(us: Seq<UnitCore>, k: int) -> Seq<
    (Seq<char>, Seq<(Seq<char>, int)>, int, Seq<char>),
>
    decreases k,
{
    if k <= 0 {
        Seq::empty()
    } else {
        let cs = canon_list(distinct_tags(us), distinct_tags(us).len() as int);
        match group_finding(us, cs[k - 1]) {
            Some(f) => raw_findings(us, k - 1).push(f),
            None => raw_findings(us, k - 1),
        }
    }
}

/// `x` is reported strictly before `e`: more uses, or as many and a
/// smaller canonical form.
pub open spec fn finding_before(
    x: (Seq<char>, Seq<(Seq<char>, int)>, int, Seq<char>),
    e: (Seq<char>, Seq<(Seq<char>, int)>, int, Seq<char>),
) -> bool {
    x.2 > e.2 || (x.2 == e.2 && text::lex_lt(x.0, e.0))
}

pub open spec fn finding_insert_pos(
    s: Seq<(Seq<char>, Seq<(Seq<char>, int)>, int, Seq<char>)>,
    x: (Seq<char>, Seq<(Seq<char>, int)>, int, Seq<char>),
    i: int,
) -> int
    decreases s.len() - i,
{
    if i < 0 || i >= s.len() {
        i
    } else if finding_before(x, s[i]) {
        i
    } else {
        finding_insert_pos(s, x, i + 1)
    }
}

pub open spec fn sorted_findings(s: Seq<(Seq<char>, Seq<(Seq<char>, int)>, int, Seq<char>)>) -> Seq<
    (Seq<char>, Seq<(Seq<char>, int)>, int, Seq<char>),
>
    decreases s.len(),
{
    if s.len() == 0 {
        Seq::empty()
    } else {
        let sorted = sorted_findings(s.drop_last());
        sorted.insert(finding_insert_pos(sorted, s.last(), 0), s.last())
    }
}

/// Every tag-variant finding, most used first (ties by canonical form).
pub open spec fn tag_findings_spec(us: Seq<UnitCore>) -> Seq<
    (Seq<char>, Seq<(Seq<char>, int)>, int, Seq<char>),
> {
    let cs = canon_list(distinct_tags(us), distinct_tags(us).len() as int);
    sorted_findings(raw_findings(us, cs.len() as int))
}

/// Number of distinct tags among the first `k` used exactly once (when
/// `exact`) or fewer than three times.
pub open spec fn count_rare(us: Seq<UnitCore>, exact: bool, k: int) -> int
    decreases k,
{
    if k <= 0 {
        0
    } else {
        let n = uses_of(us, distinct_tags(us)[k - 1]);
        count_rare(us, exact, k - 1) + if (exact && n == 1) || (!exact && n < 3) {
            1int
        } else {
            0int
        }
    }
}

pub open spec fn tag_stats_spec(us: Seq<UnitCore>) -> (int, int, int, int) {
    let d = distinct_tags(us);
    (
        d.len() as int,
        uses(us).len() as int,
        count_rare(us, true, d.len() as int),
        count_rare(us, false, d.len() as int),
    )
}

pub open spec fn variant_view(v: TagVariant) -> (Seq<char>, int) {
    (v.tag@, v.uses as int)
}

pub open spec fn tvf_view(f: TagVariantFinding) -> (Seq<char>, Seq<(Seq<char>, int)>, int, Seq<char>) {
    (
        f.canonical@,
        f.variants@.map_values(|v: TagVariant| variant_view(v)),
        f.total_uses as int,
        f.reason@,
    )
}

fn norm_chars(t: &Vec<char>) -> (r: Vec<char>)
    ensures
        r@ == norm(t@),
{
    let s = string_of(t.as_slice());
    let n = normalize_tag(s.as_str());
    chars_of(n.as_str())
}

proof fn lemma_canon_contains(d: Seq<Seq<char>>, j: int, k: int)
    requires
        0 <= j < k <= d.len(),
        norm(d[j]).len() > 0,
    ensures
        canon_list(d, k).contains(norm(d[j])),
    decreases k,
{
    lemma_canon_no_dup(d, k - 1);
    if j == k - 1 {
        wordset::lemma_add_word_no_dup(canon_list(d, k - 1), norm(d[j]));
    } else {
        lemma_canon_contains(d, j, k - 1);
        if norm(d[k - 1]).len() > 0 {
            wordset::lemma_add_word_no_dup(canon_list(d, k - 1), norm(d[k - 1]));
        }
    }
}

proof fn lemma_canon_no_dup(d: Seq<Seq<char>>, k: int)
    requires
        0 <= k <= d.len(),
    ensures
        canon_list(d, k).no_duplicates(),
    decreases k,
{
    if k > 0 {
        lemma_canon_no_dup(d, k - 1);
        if norm(d[k - 1]).len() > 0 {
            wordset::lemma_add_word_no_dup(canon_list(d, k - 1), norm(d[k - 1]));
        }
    }
}

proof fn lemma_bucket_empty_if_new(d: Seq<Seq<char>>, c: Seq<char>, k: int)
    requires
        0 <= k <= d.len(),
        c.len() > 0,
        !canon_list(d, k).contains(c),
    ensures
        bucket_ids(d, c, k).len() == 0,
    decreases k,
{
    if k > 0 {
        if norm(d[k - 1]) == c {
            lemma_canon_contains(d, k - 1, k);
        }
        assert(!canon_list(d, k - 1).contains(c)) by {
            if canon_list(d, k - 1).contains(c) {
                lemma_canon_no_dup(d, k - 1);
                if norm(d[k - 1]).len() > 0 {
                    wordset::lemma_add_word_no_dup(canon_list(d, k - 1), norm(d[k - 1]));
                }
            }
        }
        lemma_bucket_empty_if_new(d, c, k - 1);
    }
}

pub open spec fn usize_ints(v: Seq<usize>) -> Seq<int> {
    v.map_values(|x: usize| x as int)
}

/// Group the tags `keys` by normal form: the distinct non-empty normal
/// forms in order of first appearance, and for each the positions of its
/// tags.
fn bucket_tags(keys: &Vec<Vec<char>>) -> (r: (Vec<Vec<char>>, Vec<Vec<usize>>))
    ensures
        text::views(r.0@) == canon_list(text::views(keys@), keys@.len() as int),
        r.1@.len() == r.0@.len(),
        forall|b: int|
            0 <= b < r.1@.len() ==> usize_ints(#[trigger] r.1@[b]@) == bucket_ids(
                text::views(keys@),
                r.0@[b]@,
                keys@.len() as int,
            ),
{
    let ghost d = text::views(keys@);
    let mut canon: Vec<Vec<char>> = Vec::new();
    let mut buckets: Vec<Vec<usize>> = Vec::new();
    let mut i: usize = 0;
    assert(text::views(canon@) =~= canon_list(d, 0));
    while i < keys.len()
        invariant
            i <= keys@.len(),
            d == text::views(keys@),
            text::views(canon@) == canon_list(d, i as int),
            buckets@.len() == canon@.len(),
            forall|b: int|
                0 <= b < buckets@.len() ==> usize_ints(#[trigger] buckets@[b]@) == bucket_ids(
                    d,
                    canon@[b]@,
                    i as int,
                ),
        decreases keys@.len() - i,
    {
        let n = norm_chars(&keys[i]);
        proof {
            assert(d[i as int] == keys@[i as int]@);
            lemma_canon_no_dup(d, i as int);
        }
        if n.len() > 0 {
            let mut f: usize = 0;
            let mut found = false;
            while f < canon.len() && !found
                invariant
                    f <= canon@.len(),
                    found ==> f < canon@.len() && canon@[f as int]@ == n@,
                    !found ==> forall|j: int| 0 <= j < f ==> #[trigger] canon@[j]@ != n@,
                decreases canon@.len() - f, if found { 0int } else { 1int },
            {
                if chars_eq(&canon[f], &n) {
                    found = true;
                } else {
                    f = f + 1;
                }
            }
            if found {
                let ghost cv = text::views(canon@);
                proof {
                    assert(cv[f as int] == n@);
                    assert(cv.contains(n@));
                }
                buckets[f].push(i);
                proof {
                    assert(canon_list(d, i + 1) == cv);
                    assert forall|b: int| 0 <= b < buckets@.len() implies usize_ints(
                        #[trigger] buckets@[b]@,
                    ) == bucket_ids(d, canon@[b]@, i + 1) by {
                        if b == f {
                            assert(usize_ints(buckets@[b]@) =~= bucket_ids(d, canon@[b]@, i as int).push(
                                i as int,
                            ));
                        } else {
                            assert(cv[b] != cv[f as int]);
                        }
                    }
                }
            } else {
                let ghost cv = text::views(canon@);
                proof {
                    assert(!cv.contains(n@)) by {
                        if cv.contains(n@) {
                            let j = choose|j: int| 0 <= j < cv.len() && cv[j] == n@;
                            assert(canon@[j]@ == n@);
                        }
                    }
                    lemma_bucket_empty_if_new(d, n@, i as int);
                }
                canon.push(n);
                let mut nb: Vec<usize> = Vec::new();
                nb.push(i);
                buckets.push(nb);
                proof {
                    assert(text::views(canon@) =~= cv.push(n@));
                    assert forall|b: int| 0 <= b < buckets@.len() implies usize_ints(
                        #[trigger] buckets@[b]@,
                    ) == bucket_ids(d, canon@[b]@, i + 1) by {
                        if b == cv.len() {
                            assert(usize_ints(buckets@[b]@) =~= seq![i as int]);
                            assert(bucket_ids(d, n@, i as int) =~= Seq::<int>::empty());
                        } else {
                            assert(canon@[b]@ == cv[b]);
                            assert(cv[b] != n@) by {
                                assert(cv.contains(cv[b]));
                            }
                        }
                    }
                }
            }
        } else {
            proof {
                assert forall|b: int| 0 <= b < buckets@.len() implies usize_ints(
                    #[trigger] buckets@[b]@,
                ) == bucket_ids(d, canon@[b]@, i + 1) by {
                    assert(text::views(canon@)[b] == canon@[b]@);
                    assert(canon_list(d, i as int).contains(canon@[b]@));
                    lemma_canon_nonempty(d, i as int);
                }
            }
        }
        i = i + 1;
    }
    (canon, buckets)
}

proof fn lemma_canon_nonempty(d: Seq<Seq<char>>, k: int)
    requires
        0 <= k <= d.len(),
    ensures
        forall|x: Seq<char>| #[trigger] canon_list(d, k).contains(x) ==> x.len() > 0,
    decreases k,
{
    if k > 0 {
        lemma_canon_nonempty(d, k - 1);
        lemma_canon_no_dup(d, k - 1);
        if norm(d[k - 1]).len() > 0 {
            wordset::lemma_add_word_no_dup(canon_list(d, k - 1), norm(d[k - 1]));
        }
    }
}

fn count_norm(norms: &Vec<Vec<char>>, c: &Vec<char>, Ghost(a): Ghost<Seq<Seq<char>>>) -> (r: usize)
    requires
        norms@.len() == a.len(),
        forall|p: int| 0 <= p < a.len() ==> #[trigger] norms@[p]@ == norm(a[p]),
    ensures
        r as int == norm_total(a, c@, a.len() as int),
{
    let mut n: usize = 0;
    let mut p: usize = 0;
    while p < norms.len()
        invariant
            p <= norms@.len(),
            norms@.len() == a.len(),
            forall|q: int| 0 <= q < a.len() ==> #[trigger] norms@[q]@ == norm(a[q]),
            n as int == norm_total(a, c@, p as int),
            n <= p,
        decreases norms@.len() - p,
    {
        if chars_eq(&norms[p], c) {
            n = n + 1;
        }
        p = p + 1;
    }
    n
}

pub open spec fn pair_views(v: Seq<(Vec<char>, usize)>) -> Seq<(Seq<char>, int)> {
    v.map_values(|x: (Vec<char>, usize)| (x.0@, x.1 as int))
}

proof fn lemma_variant_insert_pos_bounds(s: Seq<(Seq<char>, int)>, x: (Seq<char>, int), i: int)
    requires
        0 <= i <= s.len(),
    ensures
        i <= variant_insert_pos(s, x, i) <= s.len(),
    decreases s.len() - i,
{
    if i < s.len() && !variant_before(x, s[i]) {
        lemma_variant_insert_pos_bounds(s, x, i + 1);
    }
}

/// The variants at positions `ids` of (`keys`, `counts`), sorted.
fn sorted_variants_exec(ids: &Vec<usize>, keys: &Vec<Vec<char>>, counts: &Vec<usize>) -> (r: Vec<
    (Vec<char>, usize),
>)
    requires
        keys@.len() == counts@.len(),
        forall|j: int| 0 <= j < ids@.len() ==> #[trigger] ids@[j] < keys@.len(),
    ensures
        pair_views(r@) == sorted_variants(
            ids@.map_values(|i: usize| (keys@[i as int]@, counts@[i as int] as int)),
        ),
{
    let ghost src = ids@.map_values(|i: usize| (keys@[i as int]@, counts@[i as int] as int));
    let mut sorted: Vec<(Vec<char>, usize)> = Vec::new();
    let mut k: usize = 0;
    assert(pair_views(sorted@) =~= sorted_variants(src.take(0)));
    while k < ids.len()
        invariant
            k <= ids@.len(),
            keys@.len() == counts@.len(),
            forall|j: int| 0 <= j < ids@.len() ==> #[trigger] ids@[j] < keys@.len(),
            src == ids@.map_values(|i: usize| (keys@[i as int]@, counts@[i as int] as int)),
            pair_views(sorted@) == sorted_variants(src.take(k as int)),
        decreases ids@.len() - k,
    {
        let id = ids[k];
        let x = (keys[id].clone(), counts[id]);
        let ghost xs = (x.0@, x.1 as int);
        let ghost ss = pair_views(sorted@);
        proof {
            assert(src[k as int] == xs);
            lemma_variant_insert_pos_bounds(ss, xs, 0);
        }
        let mut p: usize = 0;
        while p < sorted.len() && !(x.1 > sorted[p].1 || (x.1 == sorted[p].1 && lex_lt_exec(&x.0, &sorted[p].0)))
            invariant
                p <= sorted@.len(),
                ss == pair_views(sorted@),
                xs == (x.0@, x.1 as int),
                variant_insert_pos(ss, xs, p as int) == variant_insert_pos(ss, xs, 0),
            decreases sorted@.len() - p,
        {
            assert(ss[p as int] == (sorted@[p as int].0@, sorted@[p as int].1 as int));
            p = p + 1;
        }
        proof {
            if p < sorted@.len() {
                assert(ss[p as int] == (sorted@[p as int].0@, sorted@[p as int].1 as int));
            }
        }
        sorted.insert(p, x);
        proof {
            assert(pair_views(sorted@) =~= ss.insert(p as int, xs));
            let t = src.take(k + 1);
            assert(t.drop_last() =~= src.take(k as int));
        }
        k = k + 1;
    }
    assert(src.take(ids@.len() as int) =~= src);
    sorted
}

fn variant_text_exec(v: &(Vec<char>, usize)) -> (r: Vec<char>)
    ensures
        r@ == variant_text((v.0@, v.1 as int)),
{
    let mut out: Vec<char> = Vec::new();
    append_chars(&mut out, &v.0);
    out.push('(');
    let d = decimal_chars(v.1);
    append_chars(&mut out, &d);
    out.push(')');
    assert(out@ =~= variant_text((v.0@, v.1 as int)));
    out
}

fn variant_reason_exec(c: &Vec<char>, vs: &Vec<(Vec<char>, usize)>) -> (r: Vec<char>)
    ensures
        r@ == variant_reason(c@, pair_views(vs@)),
{
    let mut parts: Vec<Vec<char>> = Vec::new();
    let mut i: usize = 0;
    while i < vs.len()
        invariant
            i <= vs@.len(),
            parts@.len() == i,
            forall|k: int| 0 <= k < i ==> #[trigger] parts@[k]@ == variant_text(
                (vs@[k].0@, vs@[k].1 as int),
            ),
        decreases vs@.len() - i,
    {
        parts.push(variant_text_exec(&vs[i]));
        i = i + 1;
    }
    let sep = lit(", ");
    let joined = text::join_exec(&parts, &sep);
    let mut out = decimal_chars(vs.len());
    let a = lit(" variants share normalized form `");
    let b = lit("`: ");
    append_chars(&mut out, &a);
    append_chars(&mut out, c);
    append_chars(&mut out, &b);
    append_chars(&mut out, &joined);
    proof {
        assert(text::views(parts@) =~= pair_views(vs@).map_values(
            |v: (Seq<char>, int)| variant_text(v),
        ));
    }
    out
}

pub open spec fn exec_finding_view(f: (Vec<char>, Vec<(Vec<char>, usize)>, usize, Vec<char>)) -> (
    Seq<char>,
    Seq<(Seq<char>, int)>,
    int,
    Seq<char>,
) {
    (f.0@, pair_views(f.1@), f.2 as int, f.3@)
}

proof fn lemma_finding_insert_pos_bounds(
    s: Seq<(Seq<char>, Seq<(Seq<char>, int)>, int, Seq<char>)>,
    x: (Seq<char>, Seq<(Seq<char>, int)>, int, Seq<char>),
    i: int,
)
    requires
        0 <= i <= s.len(),
    ensures
        i <= finding_insert_pos(s, x, i) <= s.len(),
    decreases s.len() - i,
{
    if i < s.len() && !finding_before(x, s[i]) {
        lemma_finding_insert_pos_bounds(s, x, i + 1);
    }
}

fn to_variants(vs: &Vec<(Vec<char>, usize)>) -> (r: Vec<TagVariant>)
    ensures
        r@.map_values(|v: TagVariant| variant_view(v)) == pair_views(vs@),
{
    let mut out: Vec<TagVariant> = Vec::new();
    let mut i: usize = 0;
    while i < vs.len()
        invariant
            i <= vs@.len(),
            out@.len() == i,
            forall|k: int| 0 <= k < i ==> #[trigger] variant_view(out@[k]) == (vs@[k].0@, vs@[k].1 as int),
        decreases vs@.len() - i,
    {
        out.push(TagVariant { tag: string_of(vs[i].0.as_slice()), uses: vs[i].1 });
        i = i + 1;
    }
    assert(out@.map_values(|v: TagVariant| variant_view(v)) =~= pair_views(vs@));
    out
}

/// Tag fragmentation findings and tag-use statistics. Tags are trimmed and
/// blanks skipped; tags whose normal forms coincide are variants of one
/// another, and a group of at least two variants with at least three uses
/// in all is reported, its variants most used first (ties by tag). Groups
/// are reported with the most used first (ties by normal form).
pub fn check_tags(units: &Vec<UnitCore>) -> (r: (Vec<TagVariantFinding>, TagStats))
    ensures
        r.0@.map_values(|f: TagVariantFinding| tvf_view(f)) == tag_findings_spec(units@),
        (r.1.distinct as int, r.1.total_uses as int, r.1.singletons as int, r.1.low_use as int)
            == tag_stats_spec(units@),
{
    let all = collect_uses(units);
    let ghost a = uses(units@);
    let (keys, counts) = count_words(&all);
    let ghost d = distinct_tags(units@);
    proof {
        wordset::lemma_dedup_props(a);
    }
    // Normal forms of every use.
    let mut norms: Vec<Vec<char>> = Vec::new();
    let mut p: usize = 0;
    while p < all.len()
        invariant
            p <= all@.len(),
            a == text::views(all@),
            norms@.len() == p,
            forall|q: int| 0 <= q < p ==> #[trigger] norms@[q]@ == norm(a[q]),
        decreases all@.len() - p,
    {
        norms.push(norm_chars(&all[p]));
        p = p + 1;
    }
    let (canon, buckets) = bucket_tags(&keys);
    let ghost cs = canon_list(d, d.len() as int);
    let mut found: Vec<(Vec<char>, Vec<(Vec<char>, usize)>, usize, Vec<char>)> = Vec::new();
    let mut b: usize = 0;
    proof {
        assert(found@.map_values(|f: (Vec<char>, Vec<(Vec<char>, usize)>, usize, Vec<char>)| exec_finding_view(f))
            =~= sorted_findings(raw_findings(units@, 0)));
    }
    while b < canon.len()
        invariant
            b <= canon@.len(),
            a == uses(units@),
            d == distinct_tags(units@),
            text::views(keys@) == d,
            counts@.len() == keys@.len(),
            forall|i: int| 0 <= i < counts@.len() ==> #[trigger] counts@[i] as int == uses_of(units@, keys@[i]@),
            norms@.len() == a.len(),
            forall|q: int| 0 <= q < a.len() ==> #[trigger] norms@[q]@ == norm(a[q]),
            cs == canon_list(d, d.len() as int),
            text::views(canon@) == cs,
            buckets@.len() == canon@.len(),
            forall|x: int|
                0 <= x < buckets@.len() ==> usize_ints(#[trigger] buckets@[x]@) == bucket_ids(
                    d,
                    canon@[x]@,
                    keys@.len() as int,
                ),
            found@.map_values(|f: (Vec<char>, Vec<(Vec<char>, usize)>, usize, Vec<char>)| exec_finding_view(f))
                == sorted_findings(raw_findings(units@, b as int)),
        decreases canon@.len() - b,
    {
        let ghost fv = found@.map_values(|f: (Vec<char>, Vec<(Vec<char>, usize)>, usize, Vec<char>)| exec_finding_view(f));
        let ghost c = canon@[b as int]@;
        proof {
            assert(cs[b as int] == c);
        }
        let ids = &buckets[b];
        proof {
            assert(usize_ints(ids@) == bucket_ids(d, c, d.len() as int));
            lemma_bucket_ids_range(d, c, d.len() as int);
        }
        let mut reported = false;
        if ids.len() >= 2 {
            let total = count_norm(&norms, &canon[b], Ghost(a));
            if total >= TAG_VARIANT_MIN_USES {
                proof {
                    assert forall|j: int| 0 <= j < ids@.len() implies #[trigger] ids@[j] < keys@.len() by {
                        assert(usize_ints(ids@)[j] == ids@[j] as int);
                    }
                }
                let vs = sorted_variants_exec(ids, &keys, &counts);
                let reason = variant_reason_exec(&canon[b], &vs);
                let x = (canon[b].clone(), vs, total, reason);
                let ghost xs = exec_finding_view(x);
                proof {
                    let m1 = ids@.map_values(|i: usize| (keys@[i as int]@, counts@[i as int] as int));
                    let m2 = bucket_ids(d, c, d.len() as int).map_values(|i: int| (d[i], uses_of(units@, d[i])));
                    assert(m1 =~= m2) by {
                        assert forall|j: int| 0 <= j < m1.len() implies m1[j] == m2[j] by {
                            assert(usize_ints(ids@)[j] == ids@[j] as int);
                        }
                    }
                    assert(group_finding(units@, c) == Some(xs));
                    assert(raw_findings(units@, b + 1) == raw_findings(units@, b as int).push(xs));
                    lemma_finding_insert_pos_bounds(fv, xs, 0);
                }
                let mut q: usize = 0;
                while q < found.len() && !(x.2 > found[q].2 || (x.2 == found[q].2 && lex_lt_exec(&x.0, &found[q].0)))
                    invariant
                        q <= found@.len(),
                        fv == found@.map_values(|f: (Vec<char>, Vec<(Vec<char>, usize)>, usize, Vec<char>)| exec_finding_view(f)),
                        xs == exec_finding_view(x),
                        finding_insert_pos(fv, xs, q as int) == finding_insert_pos(fv, xs, 0),
                    decreases found@.len() - q,
                {
                    assert(fv[q as int] == exec_finding_view(found@[q as int]));
                    q = q + 1;
                }
                proof {
                    if q < found@.len() {
                        assert(fv[q as int] == exec_finding_view(found@[q as int]));
                    }
                    let r2 = raw_findings(units@, b + 1);
                    assert(r2.drop_last() =~= raw_findings(units@, b as int));
                }
                found.insert(q, x);
                proof {
                    assert(found@.map_values(|f: (Vec<char>, Vec<(Vec<char>, usize)>, usize, Vec<char>)| exec_finding_view(f))
                        =~= fv.insert(q as int, xs));
                }
                reported = true;
            }
        }
        if !reported {
            proof {
                assert(group_finding(units@, c) is None);
                assert(raw_findings(units@, b + 1) == raw_findings(units@, b as int));
            }
        }
        b = b + 1;
    }
    // Output records.
    let mut findings: Vec<TagVariantFinding> = Vec::new();
    let mut k: usize = 0;
    while k < found.len()
        invariant
            k <= found@.len(),
            findings@.len() == k,
            forall|j: int| 0 <= j < k ==> #[trigger] tvf_view(findings@[j]) == exec_finding_view(found@[j]),
        decreases found@.len() - k,
    {
        let f = &found[k];
        let variants = to_variants(&f.1);
        findings.push(
            TagVariantFinding {
                canonical: string_of(f.0.as_slice()),
                variants,
                total_uses: f.2,
                reason: string_of(f.3.as_slice()),
            },
        );
        k = k + 1;
    }
    proof {
        assert(findings@.map_values(|f: TagVariantFinding| tvf_view(f)) =~= found@.map_values(
            |f: (Vec<char>, Vec<(Vec<char>, usize)>, usize, Vec<char>)| exec_finding_view(f),
        ));
    }
    // Statistics.
    let mut singletons: usize = 0;
    let mut low_use: usize = 0;
    let mut j: usize = 0;
    while j < counts.len()
        invariant
            j <= counts@.len(),
            d == distinct_tags(units@),
            text::views(keys@) == d,
            counts@.len() == keys@.len(),
            forall|i: int| 0 <= i < counts@.len() ==> #[trigger] counts@[i] as int == uses_of(units@, keys@[i]@),
            singletons as int == count_rare(units@, true, j as int),
            low_use as int == count_rare(units@, false, j as int),
            singletons <= j,
            low_use <= j,
        decreases counts@.len() - j,
    {
        proof {
            assert(d[j as int] == keys@[j as int]@);
        }
        if counts[j] == 1 {
            singletons = singletons + 1;
        }
        if counts[j] < 3 {
            low_use = low_use + 1;
        }
        j = j + 1;
    }
    let stats = TagStats {
        distinct: keys.len(),
        total_uses: all.len(),
        singletons,
        low_use,
    };
    (findings, stats)
}

proof fn lemma_bucket_ids_range(d: Seq<Seq<char>>, c: Seq<char>, k: int)
    requires
        0 <= k <= d.len(),
    ensures
        forall|j: int| 0 <= j < bucket_ids(d, c, k).len() ==> 0 <= #[trigger] bucket_ids(d, c, k)[j] < k,
    decreases k,
{
    if k > 0 {
        lemma_bucket_ids_range(d, c, k - 1);
        let prev = bucket_ids(d, c, k - 1);
        if norm(d[k - 1]) == c {
            let cur = prev.push(k - 1);
            assert(bucket_ids(d, c, k) == cur);
            assert forall|j: int| 0 <= j < cur.len() implies 0 <= #[trigger] cur[j] < k by {
                if j < prev.len() {
                    assert(cur[j] == prev[j]);
                }
            }
        }
    }
}

} // verus!
