//! Near-duplicate detection among units of one type: units that share a
//! headline, and units whose 3-word shingle sets overlap heavily. Each
//! pair is reported once, most similar first.
use vstd::prelude::*;
use crate::text;
use crate::text::{chars_eq, chars_of, lex_lt_exec, string_of, trim_chars};
use crate::tag_guard;
use crate::tag_guard::to_lowercase;
use crate::wordset;
use crate::wordset::count_common_exec;
use crate::display;
use crate::display::derive_headline;
use crate::lint;
use crate::lint::shingles_3;
use crate::model::UnitCore;

verus! {

broadcast use vstd::string::group_string_axioms;

/// Two bodies are near-duplicates when the Jaccard index of their shingle
/// sets exceeds `DUPE_SIMILARITY_NUM / DUPE_SIMILARITY_DEN` (0.85).
pub const DUPE_SIMILARITY_NUM: u128 = 17;
pub const DUPE_SIMILARITY_DEN: u128 = 20;

// ---------------------------------------------------------------------------
// What counts as a duplicate pair
// ---------------------------------------------------------------------------

/// The headline a unit is grouped by: derived headline, trimmed, lowercased.
pub open spec fn headline_key(u: UnitCore) -> Seq<char> {
    tag_guard::lowercase(text::trim(display::headline_spec(u.content@)))
}

/// The unit's shingle set.
pub open spec fn shingle_set(u: UnitCore) -> Seq<Seq<char>> {
    lint::shingles_spec(u.content@)
}

pub open spec fn same_type(us: Seq<UnitCore>, i: int, j: int) -> bool {
    us[i].unit_type@ == us[j].unit_type@
}

/// Unit `i` is the first of its type to carry its headline.
pub open spec fn first_of_headline(us: Seq<UnitCore>, i: int) -> bool {
    forall|k: int|
        0 <= k < i ==> !(#[trigger] same_type(us, k, i) && headline_key(us[k]) == headline_key(
            us[i],
        ))
}

/// `j` repeats the (non-empty) headline that `i`, the first unit of that
/// type with it, carries.
pub open spec fn headline_pair(us: Seq<UnitCore>, i: int, j: int) -> bool {
    &&& 0 <= i < j < us.len()
    &&& same_type(us, i, j)
    &&& headline_key(us[i]).len() > 0
    &&& headline_key(us[i]) == headline_key(us[j])
    &&& first_of_headline(us, i)
}

pub open spec fn shared_shingles(us: Seq<UnitCore>, i: int, j: int) -> nat {
    wordset::count_common(shingle_set(us[i]), shingle_set(us[j]))
}

pub open spec fn union_shingles(us: Seq<UnitCore>, i: int, j: int) -> int {
    shingle_set(us[i]).len() + shingle_set(us[j]).len() - shared_shingles(us, i, j)
}

/// Two units of one type, not already paired by headline, whose shingle
/// sets have a Jaccard index above the threshold.
pub open spec fn shingle_pair(us: Seq<UnitCore>, i: int, j: int) -> bool {
    &&& 0 <= i < j < us.len()
    &&& same_type(us, i, j)
    &&& !headline_pair(us, i, j)
    &&& DUPE_SIMILARITY_DEN * shared_shingles(us, i, j) > DUPE_SIMILARITY_NUM * union_shingles(
        us,
        i,
        j,
    )
}

pub open spec fn dupe_pair(us: Seq<UnitCore>, i: int, j: int) -> bool {
    headline_pair(us, i, j) || shingle_pair(us, i, j)
}

/// One flagged pair: units `a < b` of one type, with their similarity as
/// the fraction `sim_num / sim_den` (1 for a shared headline).
#[derive(Clone, Copy, Debug)]
pub struct DupeCandidate {
    pub a: usize,
    pub b: usize,
    pub sim_num: usize,
    pub sim_den: usize,
    pub by_headline: bool,
}

/// `c` is a duplicate pair with the similarity it is reported with.
pub open spec fn candidate_ok(us: Seq<UnitCore>, c: DupeCandidate) -> bool {
    &&& dupe_pair(us, c.a as int, c.b as int)
    &&& c.by_headline == headline_pair(us, c.a as int, c.b as int)
    &&& if c.by_headline {
        c.sim_num == 1 && c.sim_den == 1
    } else {
        c.sim_num == shared_shingles(us, c.a as int, c.b as int) && c.sim_den == union_shingles(
            us,
            c.a as int,
            c.b as int,
        )
    }
}

/// `x` ranks before `y`: higher similarity first, then by the first unit's id.
pub open spec fn ranks_before(us: Seq<UnitCore>, x: DupeCandidate, y: DupeCandidate) -> bool {
    ||| x.sim_num * y.sim_den > y.sim_num * x.sim_den
    ||| (x.sim_num * y.sim_den == y.sim_num * x.sim_den && text::lex_lt(
        us[x.a as int].id@,
        us[y.a as int].id@,
    ))
}

pub open spec fn ranked(us: Seq<UnitCore>, s: Seq<DupeCandidate>) -> bool {
    forall|p: int, q: int| 0 <= p < q < s.len() ==> !ranks_before(us, #[trigger] s[q], #[trigger] s[p])
}

pub open spec fn has_pair(s: Seq<DupeCandidate>, i: int, j: int) -> bool {
    exists|k: int| 0 <= k < s.len() && (#[trigger] s[k]).a == i && s[k].b == j
}

pub open spec fn dens_positive(s: Seq<DupeCandidate>) -> bool {
    forall|k: int| 0 <= k < s.len() ==> (#[trigger] s[k]).sim_den > 0
}

// ---------------------------------------------------------------------------
// Order on candidates
// ---------------------------------------------------------------------------

proof fn lemma_frac_chain(a: int, b: int, c: int, d: int, e: int, f: int)
    requires
        b > 0,
        d > 0,
        f > 0,
        a * d >= c * b,
        c * f >= e * d,
    ensures
        a * f >= e * b,
        (a * d > c * b || c * f > e * d) ==> a * f > e * b,
{
    assert(a * d * f >= c * b * f) by (nonlinear_arith)
        requires
            a * d >= c * b,
            f > 0,
    ;
    assert(c * f * b >= e * d * b) by (nonlinear_arith)
        requires
            c * f >= e * d,
            b > 0,
    ;
    assert(c * b * f == c * f * b) by (nonlinear_arith);
    assert(a * d * f == d * (a * f)) by (nonlinear_arith);
    assert(e * d * b == d * (e * b)) by (nonlinear_arith);
    assert(a * f >= e * b) by (nonlinear_arith)
        requires
            d * (a * f) >= d * (e * b),
            d > 0,
    ;
    if a * d > c * b {
        assert(a * d * f > c * b * f) by (nonlinear_arith)
            requires
                a * d > c * b,
                f > 0,
        ;
        assert(a * f > e * b) by (nonlinear_arith)
            requires
                d * (a * f) > d * (e * b),
                d > 0,
        ;
    }
    if c * f > e * d {
        assert(c * f * b > e * d * b) by (nonlinear_arith)
            requires
                c * f > e * d,
                b > 0,
        ;
        assert(a * f > e * b) by (nonlinear_arith)
            requires
                d * (a * f) > d * (e * b),
                d > 0,
        ;
    }
}

proof fn lemma_ranks_before_irreflexive(us: Seq<UnitCore>, x: DupeCandidate)
    ensures
        !ranks_before(us, x, x),
{
    text::law_lex_order_strict_total(us[x.a as int].id@, us[x.a as int].id@);
}

proof fn lemma_ranks_before_transitive(
    us: Seq<UnitCore>,
    x: DupeCandidate,
    y: DupeCandidate,
    z: DupeCandidate,
)
    requires
        x.sim_den > 0,
        y.sim_den > 0,
        z.sim_den > 0,
        ranks_before(us, x, y),
        ranks_before(us, y, z),
    ensures
        ranks_before(us, x, z),
{
    let (a, b, c, d, e, f) = (
        x.sim_num as int,
        x.sim_den as int,
        y.sim_num as int,
        y.sim_den as int,
        z.sim_num as int,
        z.sim_den as int,
    );
    lemma_frac_chain(a, b, c, d, e, f);
    if a * d == c * b && c * f == e * d {
        lemma_frac_chain(e, f, c, d, a, b);
        text::law_lex_order_transitive(
            us[x.a as int].id@,
            us[y.a as int].id@,
            us[z.a as int].id@,
        );
    }
}

proof fn lemma_usize_product_fits(m: usize, n: usize)
    ensures
        (m as int) * (n as int) <= u128::MAX,
{
    assert((m as int) * (n as int) <= 0xffff_ffff_ffff_ffffint * 0xffff_ffff_ffff_ffffint)
        by (nonlinear_arith)
        requires
            0 <= m <= 0xffff_ffff_ffff_ffffint,
            0 <= n <= 0xffff_ffff_ffff_ffffint,
    ;
}

fn ranks_before_exec(
    units: &Vec<UnitCore>,
    ids: &Vec<Vec<char>>,
    x: &DupeCandidate,
    y: &DupeCandidate,
) -> (r: bool)
    requires
        ids@.len() == units@.len(),
        forall|k: int| 0 <= k < ids@.len() ==> (#[trigger] ids@[k])@ == units@[k].id@,
        x.a < units@.len(),
        y.a < units@.len(),
    ensures
        r == ranks_before(units@, *x, *y),
{
    proof {
        lemma_usize_product_fits(x.sim_num, y.sim_den);
        lemma_usize_product_fits(y.sim_num, x.sim_den);
    }
    let l = (x.sim_num as u128) * (y.sim_den as u128);
    let g = (y.sim_num as u128) * (x.sim_den as u128);
    if l > g {
        true
    } else if l == g {
        lex_lt_exec(&ids[x.a], &ids[y.a])
    } else {
        false
    }
}

proof fn lemma_insert_keeps_pairs(s: Seq<DupeCandidate>, p: int, c: DupeCandidate)
    requires
        0 <= p <= s.len(),
    ensures
        forall|i: int, j: int| has_pair(s, i, j) ==> #[trigger] has_pair(s.insert(p, c), i, j),
        has_pair(s.insert(p, c), c.a as int, c.b as int),
{
    let t = s.insert(p, c);
    assert forall|i: int, j: int| has_pair(s, i, j) implies #[trigger] has_pair(t, i, j) by {
        let k = choose|k: int| 0 <= k < s.len() && (#[trigger] s[k]).a == i && s[k].b == j;
        if k < p {
            assert(t[k] == s[k]);
        } else {
            assert(t[k + 1] == s[k]);
        }
    }
    assert(t[p] == c);
}

/// Puts `c` into the ranked list after every candidate it does not rank
/// before.
fn insert_ranked(
    units: &Vec<UnitCore>,
    ids: &Vec<Vec<char>>,
    out: &mut Vec<DupeCandidate>,
    c: DupeCandidate,
) -> (p: usize)
    requires
        ids@.len() == units@.len(),
        forall|k: int| 0 <= k < ids@.len() ==> (#[trigger] ids@[k])@ == units@[k].id@,
        c.a < units@.len(),
        c.sim_den > 0,
        forall|k: int| 0 <= k < old(out)@.len() ==> (#[trigger] old(out)@[k]).a < units@.len(),
        dens_positive(old(out)@),
        ranked(units@, old(out)@),
    ensures
        p <= old(out)@.len(),
        final(out)@ == old(out)@.insert(p as int, c),
        ranked(units@, final(out)@),
{
    let ghost s = out@;
    let mut p: usize = 0;
    while p < out.len() && !ranks_before_exec(units, ids, &c, &out[p])
        invariant
            out@ == s,
            p <= s.len(),
            ids@.len() == units@.len(),
            forall|k: int| 0 <= k < ids@.len() ==> (#[trigger] ids@[k])@ == units@[k].id@,
            c.a < units@.len(),
            forall|k: int| 0 <= k < s.len() ==> (#[trigger] s[k]).a < units@.len(),
            forall|q: int| 0 <= q < p ==> !ranks_before(units@, c, #[trigger] s[q]),
        decreases s.len() - p,
    {
        p = p + 1;
    }
    out.insert(p, c);
    proof {
        let t = out@;
        assert(t == s.insert(p as int, c));
        assert forall|x: int, y: int| 0 <= x < y < t.len() implies !ranks_before(
            units@,
            #[trigger] t[y],
            #[trigger] t[x],
        ) by {
            if y < p {
                assert(t[y] == s[y] && t[x] == s[x]);
            } else if y == p {
                assert(t[x] == s[x]);
            } else {
                assert(t[y] == s[y - 1]);
                if x < p {
                    assert(t[x] == s[x]);
                } else if x == p {
                    assert(ranks_before(units@, c, s[p as int]));
                    if ranks_before(units@, s[y - 1], c) {
                        lemma_ranks_before_transitive(units@, s[y - 1], c, s[p as int]);
                        if y - 1 == p {
                            lemma_ranks_before_irreflexive(units@, s[p as int]);
                        }
                    }
                } else {
                    assert(t[x] == s[x - 1]);
                }
            }
        }
    }
    p
}

// ---------------------------------------------------------------------------
// Per-unit keys
// ---------------------------------------------------------------------------

fn headline_key_chars(u: &UnitCore) -> (r: Vec<char>)
    ensures
        r@ == headline_key(*u),
{
    let h = chars_of(derive_headline(u.content.as_str()).as_str());
    let t = trim_chars(&h);
    chars_of(to_lowercase(string_of(t.as_slice()).as_str()).as_str())
}

fn shingle_chars(u: &UnitCore) -> (r: Vec<Vec<char>>)
    ensures
        text::views(r@) == shingle_set(*u),
{
    let s = shingles_3(u.content.as_str());
    let mut out: Vec<Vec<char>> = Vec::new();
    let mut i: usize = 0;
    while i < s.len()
        invariant
            i <= s@.len(),
            out@.len() == i,
            forall|k: int| 0 <= k < i ==> #[trigger] out@[k]@ == s@[k]@,
        decreases s@.len() - i,
    {
        out.push(chars_of(s[i].as_str()));
        i = i + 1;
    }
    assert(text::views(out@) =~= s@.map_values(|t: String| t@));
    out
}

proof fn lemma_count_common_empty(a: Seq<Seq<char>>, b: Seq<Seq<char>>)
    requires
        b.len() == 0,
    ensures
        wordset::count_common(a, b) == 0,
    decreases a.len(),
{
    if a.len() > 0 {
        lemma_count_common_empty(a.drop_last(), b);
    }
}

// ---------------------------------------------------------------------------
// The check
// ---------------------------------------------------------------------------

fn consider_pair(
    units: &Vec<UnitCore>,
    types: &Vec<Vec<char>>,
    hks: &Vec<Vec<char>>,
    shs: &Vec<Vec<Vec<char>>>,
    heads: &Vec<bool>,
    i: usize,
    j: usize,
) -> (r: Option<DupeCandidate>)
    requires
        i < j < units@.len(),
        types@.len() == units@.len(),
        hks@.len() == units@.len(),
        shs@.len() == units@.len(),
        heads@.len() == units@.len(),
        forall|k: int| 0 <= k < units@.len() ==> (#[trigger] types@[k])@ == units@[k].unit_type@,
        forall|k: int| 0 <= k < units@.len() ==> (#[trigger] hks@[k])@ == headline_key(units@[k]),
        forall|k: int|
            0 <= k < units@.len() ==> text::views((#[trigger] shs@[k])@) == shingle_set(units@[k]),
        forall|k: int|
            0 <= k < units@.len() ==> #[trigger] heads@[k] == first_of_headline(units@, k),
        units@[i as int].content@.len() + units@[j as int].content@.len() <= usize::MAX,
    ensures
        r is Some <==> dupe_pair(units@, i as int, j as int),
        r matches Some(c) ==> candidate_ok(units@, c) && c.a == i && c.b == j && c.sim_den > 0,
{
    let ghost us = units@;
    let ghost ii = i as int;
    let ghost jj = j as int;
    if !chars_eq(&types[i], &types[j]) {
        return None;
    }
    assert(same_type(us, ii, jj));
    let hp = hks[i].len() > 0 && heads[i] && chars_eq(&hks[i], &hks[j]);
    assert(hp == headline_pair(us, ii, jj));
    if hp {
        return Some(DupeCandidate { a: i, b: j, sim_num: 1, sim_den: 1, by_headline: true });
    }
    let s = count_common_exec(&shs[i], &shs[j]);
    proof {
        wordset::lemma_count_common_le(shingle_set(us[ii]), shingle_set(us[jj]));
        lint::lemma_shingles_len(us[ii].content@);
        lint::lemma_shingles_len(us[jj].content@);
    }
    let u = shs[i].len() + shs[j].len() - s;
    if DUPE_SIMILARITY_DEN * (s as u128) > DUPE_SIMILARITY_NUM * (u as u128) {
        proof {
            if shs@[jj].len() == 0 {
                lemma_count_common_empty(shingle_set(us[ii]), shingle_set(us[jj]));
            }
        }
        Some(DupeCandidate { a: i, b: j, sim_num: s, sim_den: u, by_headline: false })
    } else {
        None
    }
}

proof fn lemma_after_insert(
    us: Seq<UnitCore>,
    prev: Seq<DupeCandidate>,
    p: int,
    c: DupeCandidate,
    i: int,
    j: int,
)
    requires
        0 <= p <= prev.len(),
        candidate_ok(us, c),
        c.a == i,
        c.b == j,
        c.sim_den > 0,
        all_ok(us, prev),
        dens_positive(prev),
        distinct_pairs(prev),
        below(prev, i, j),
        covered(us, prev, i, j),
    ensures
        all_ok(us, prev.insert(p, c)),
        dens_positive(prev.insert(p, c)),
        distinct_pairs(prev.insert(p, c)),
        below(prev.insert(p, c), i, j + 1),
        covered(us, prev.insert(p, c), i, j + 1),
{
    let t = prev.insert(p, c);
    lemma_insert_keeps_pairs(prev, p, c);
    assert forall|k: int| 0 <= k < t.len() implies candidate_ok(us, #[trigger] t[k]) by {
        if k < p {
            assert(t[k] == prev[k]);
        } else if k > p {
            assert(t[k] == prev[k - 1]);
        }
    }
    assert forall|k: int| 0 <= k < t.len() implies (#[trigger] t[k]).sim_den > 0 by {
        if k < p {
            assert(t[k] == prev[k]);
        } else if k > p {
            assert(t[k] == prev[k - 1]);
        }
    }
    assert forall|k: int| 0 <= k < t.len() implies ((#[trigger] t[k]).a < i || (t[k].a == i && t[k].b < j + 1)) by {
        if k < p {
            assert(t[k] == prev[k]);
        } else if k > p {
            assert(t[k] == prev[k - 1]);
        }
    }
    assert forall|x: int, y: int| 0 <= x < y < t.len() implies !(#[trigger] t[x].a == #[trigger] t[y].a && t[x].b == t[y].b) by {
        if x == p {
            assert(t[y] == prev[y - 1]);
        } else if y == p {
            assert(t[x] == prev[x]);
        } else {
            let xo = if x < p { x } else { x - 1 };
            let yo = if y < p { y } else { y - 1 };
            assert(t[x] == prev[xo]);
            assert(t[y] == prev[yo]);
        }
    }
    assert forall|a: int, b: int|
        #[trigger] dupe_pair(us, a, b) && (a < i || (a == i && b < j + 1)) implies has_pair(t, a, b) by {
        if !(a == i && b == j) {
            assert(has_pair(prev, a, b));
        }
    }
}

/// Every candidate so far is a duplicate pair with positive denominator.
pub open spec fn all_ok(us: Seq<UnitCore>, s: Seq<DupeCandidate>) -> bool {
    forall|k: int| 0 <= k < s.len() ==> candidate_ok(us, #[trigger] s[k])
}

/// Every duplicate pair `(a, b)` that comes before `(i, j)` is in `s`.
pub open spec fn covered(us: Seq<UnitCore>, s: Seq<DupeCandidate>, i: int, j: int) -> bool {
    forall|a: int, b: int|
        #![trigger dupe_pair(us, a, b)]
        dupe_pair(us, a, b) && (a < i || (a == i && b < j)) ==> has_pair(s, a, b)
}

/// Every candidate in `s` comes before `(i, j)`.
pub open spec fn below(s: Seq<DupeCandidate>, i: int, j: int) -> bool {
    forall|k: int|
        0 <= k < s.len() ==> ((#[trigger] s[k]).a < i || (s[k].a == i && s[k].b < j))
}

/// No pair occurs twice.
pub open spec fn distinct_pairs(s: Seq<DupeCandidate>) -> bool {
    forall|p: int, q: int|
        0 <= p < q < s.len() ==> !(#[trigger] s[p].a == #[trigger] s[q].a && s[p].b == s[q].b)
}

/// Near-duplicate pairs among units of the same type: every pair sharing
/// a non-empty headline with the first unit of that type to carry it, and
/// every other pair whose shingle sets' Jaccard index exceeds 0.85. Each
/// pair is listed once, highest similarity first, ties by the first
/// unit's id.
pub fn check_dupe(units: &Vec<UnitCore>) -> (r: Vec<DupeCandidate>)
    requires
        forall|i: int, j: int|
            0 <= i < j < units@.len() ==> #[trigger] units@[i].content@.len()
                + #[trigger] units@[j].content@.len() <= usize::MAX,
    ensures
        all_ok(units@, r@),
        forall|i: int, j: int| #[trigger] dupe_pair(units@, i, j) ==> has_pair(r@, i, j),
        distinct_pairs(r@),
        ranked(units@, r@),
{
    let n = units.len();
    let ghost us = units@;
    let mut types: Vec<Vec<char>> = Vec::new();
    let mut hks: Vec<Vec<char>> = Vec::new();
    let mut shs: Vec<Vec<Vec<char>>> = Vec::new();
    let mut ids: Vec<Vec<char>> = Vec::new();
    let mut i: usize = 0;
    while i < n
        invariant
            n == us.len(),
            us == units@,
            i <= n,
            types@.len() == i,
            hks@.len() == i,
            shs@.len() == i,
            ids@.len() == i,
            forall|k: int| 0 <= k < i ==> (#[trigger] types@[k])@ == us[k].unit_type@,
            forall|k: int| 0 <= k < i ==> (#[trigger] hks@[k])@ == headline_key(us[k]),
            forall|k: int| 0 <= k < i ==> text::views((#[trigger] shs@[k])@) == shingle_set(us[k]),
            forall|k: int| 0 <= k < i ==> (#[trigger] ids@[k])@ == us[k].id@,
        decreases n - i,
    {
        let u = &units[i];
        types.push(chars_of(u.unit_type.as_str()));
        hks.push(headline_key_chars(u));
        shs.push(shingle_chars(u));
        ids.push(chars_of(u.id.as_str()));
        i = i + 1;
    }
    let mut heads: Vec<bool> = Vec::new();
    i = 0;
    while i < n
        invariant
            n == us.len(),
            us == units@,
            i <= n,
            types@.len() == n,
            hks@.len() == n,
            forall|k: int| 0 <= k < n ==> (#[trigger] types@[k])@ == us[k].unit_type@,
            forall|k: int| 0 <= k < n ==> (#[trigger] hks@[k])@ == headline_key(us[k]),
            heads@.len() == i,
            forall|k: int| 0 <= k < i ==> #[trigger] heads@[k] == first_of_headline(us, k),
        decreases n - i,
    {
        let mut first = true;
        let mut k: usize = 0;
        while k < i
            invariant
                n == us.len(),
                i < n,
                k <= i,
                types@.len() == n,
                hks@.len() == n,
                forall|m: int| 0 <= m < n ==> (#[trigger] types@[m])@ == us[m].unit_type@,
                forall|m: int| 0 <= m < n ==> (#[trigger] hks@[m])@ == headline_key(us[m]),
                first == forall|m: int|
                    0 <= m < k ==> !(#[trigger] same_type(us, m, i as int) && headline_key(us[m])
                        == headline_key(us[i as int])),
            decreases i - k,
        {
            if chars_eq(&types[k], &types[i]) && chars_eq(&hks[k], &hks[i]) {
                first = false;
                assert(same_type(us, k as int, i as int));
            }
            k = k + 1;
        }
        heads.push(first);
        i = i + 1;
    }
    let mut out: Vec<DupeCandidate> = Vec::new();
    i = 0;
    while i < n
        invariant
            n == us.len(),
            us == units@,
            i <= n,
            types@.len() == n,
            hks@.len() == n,
            shs@.len() == n,
            ids@.len() == n,
            heads@.len() == n,
            forall|k: int| 0 <= k < n ==> (#[trigger] types@[k])@ == us[k].unit_type@,
            forall|k: int| 0 <= k < n ==> (#[trigger] hks@[k])@ == headline_key(us[k]),
            forall|k: int| 0 <= k < n ==> text::views((#[trigger] shs@[k])@) == shingle_set(us[k]),
            forall|k: int| 0 <= k < n ==> (#[trigger] ids@[k])@ == us[k].id@,
            forall|k: int| 0 <= k < n ==> #[trigger] heads@[k] == first_of_headline(us, k),
            forall|a: int, b: int|
                0 <= a < b < us.len() ==> #[trigger] us[a].content@.len() + #[trigger] us[b].content@.len()
                    <= usize::MAX,
            all_ok(us, out@),
            dens_positive(out@),
            ranked(us, out@),
            distinct_pairs(out@),
            below(out@, i as int, 0),
            covered(us, out@, i as int, 0),
        decreases n - i,
    {
        let mut j: usize = i + 1;
        while j < n
            invariant
                n == us.len(),
                us == units@,
                i < n,
                i < j <= n,
                types@.len() == n,
                hks@.len() == n,
                shs@.len() == n,
                ids@.len() == n,
                heads@.len() == n,
                forall|k: int| 0 <= k < n ==> (#[trigger] types@[k])@ == us[k].unit_type@,
                forall|k: int| 0 <= k < n ==> (#[trigger] hks@[k])@ == headline_key(us[k]),
                forall|k: int|
                    0 <= k < n ==> text::views((#[trigger] shs@[k])@) == shingle_set(us[k]),
                forall|k: int| 0 <= k < n ==> (#[trigger] ids@[k])@ == us[k].id@,
                forall|k: int| 0 <= k < n ==> #[trigger] heads@[k] == first_of_headline(us, k),
                forall|a: int, b: int|
                    0 <= a < b < us.len() ==> #[trigger] us[a].content@.len()
                        + #[trigger] us[b].content@.len() <= usize::MAX,
                all_ok(us, out@),
                dens_positive(out@),
                ranked(us, out@),
                distinct_pairs(out@),
                below(out@, i as int, j as int),
                covered(us, out@, i as int, j as int),
            decreases n - j,
        {
            let found = consider_pair(units, &types, &hks, &shs, &heads, i, j);
            match found {
                Some(c) => {
                    let ghost prev = out@;
                    proof {
                        assert forall|k: int| 0 <= k < prev.len() implies (#[trigger] prev[k]).a < units@.len() by {
                            assert(below(prev, i as int, j as int));
                        }
                    }
                    let p = insert_ranked(units, &ids, &mut out, c);
                    proof {
                        lemma_after_insert(us, prev, p as int, c, i as int, j as int);
                    }
                },
                None => {},
            }
            j = j + 1;
        }
        proof {
            assert forall|a: int, b: int|
                #[trigger] dupe_pair(us, a, b) && (a < i + 1 || (a == i + 1 && b < 0)) implies has_pair(out@, a, b) by {
                if a == i {
                    assert(b < n);
                }
            }
        }
        i = i + 1;
    }
    proof {
        assert forall|a: int, b: int| #[trigger] dupe_pair(us, a, b) implies has_pair(out@, a, b) by {
            assert(a < n);
        }
    }
    out
}

} // verus!
