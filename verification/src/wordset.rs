//! Ordered, duplicate-free collections of words (character sequences) and
//! the counts behind Jaccard indices: members are kept in order of first
//! appearance, which makes the set a deterministic sequence.
use vstd::prelude::*;
use crate::text;
use crate::text::{chars_eq};

verus! {

/// `acc` with `w` added unless already present.
pub open spec fn add_word(acc: Seq<Seq<char>>, w: Seq<char>) -> Seq<Seq<char>> {
    if acc.contains(w) {
        acc
    } else {
        acc.push(w)
    }
}

/// The distinct words of `s`, in order of first appearance.
pub open spec fn dedup(s: Seq<Seq<char>>) -> Seq<Seq<char>>
    decreases s.len(),
{
    if s.len() == 0 {
        Seq::empty()
    } else {
        add_word(dedup(s.drop_last()), s.last())
    }
}

/// Number of words of `a` that also occur in `b`.
pub open spec fn count_common(a: Seq<Seq<char>>, b: Seq<Seq<char>>) -> nat
    decreases a.len(),
{
    if a.len() == 0 {
        0
    } else {
        count_common(a.drop_last(), b) + if b.contains(a.last()) {
            1nat
        } else {
            0nat
        }
    }
}

pub proof fn lemma_add_word_no_dup(acc: Seq<Seq<char>>, w: Seq<char>)
    requires
        acc.no_duplicates(),
    ensures
        add_word(acc, w).no_duplicates(),
        add_word(acc, w).contains(w),
        forall|x: Seq<char>| #[trigger] add_word(acc, w).contains(x) <==> (acc.contains(x) || x == w),
{
    if !acc.contains(w) {
        let r = acc.push(w);
        assert(r[r.len() - 1] == w);
        assert forall|x: Seq<char>| #[trigger] r.contains(x) implies (acc.contains(x) || x == w) by {
            let k = choose|k: int| 0 <= k < r.len() && r[k] == x;
            if k < acc.len() {
                assert(acc[k] == x);
            }
        }
        assert forall|x: Seq<char>| acc.contains(x) implies #[trigger] r.contains(x) by {
            let k = choose|k: int| 0 <= k < acc.len() && acc[k] == x;
            assert(r[k] == x);
        }
    }
}

pub proof fn lemma_dedup_props(s: Seq<Seq<char>>)
    ensures
        dedup(s).no_duplicates(),
        dedup(s).len() <= s.len(),
        forall|x: Seq<char>| #[trigger] dedup(s).contains(x) <==> s.contains(x),
    decreases s.len(),
{
    if s.len() > 0 {
        lemma_dedup_props(s.drop_last());
        lemma_add_word_no_dup(dedup(s.drop_last()), s.last());
        assert forall|x: Seq<char>| #[trigger] dedup(s).contains(x) <==> s.contains(x) by {
            if s.contains(x) {
                let k = choose|k: int| 0 <= k < s.len() && s[k] == x;
                if k < s.len() - 1 {
                    assert(s.drop_last()[k] == x);
                }
            }
            if s.drop_last().contains(x) {
                let k = choose|k: int| 0 <= k < s.drop_last().len() && s.drop_last()[k] == x;
                assert(s[k] == x);
            }
        }
    }
}

pub proof fn lemma_count_common_le(a: Seq<Seq<char>>, b: Seq<Seq<char>>)
    ensures
        count_common(a, b) <= a.len(),
    decreases a.len(),
{
    if a.len() > 0 {
        lemma_count_common_le(a.drop_last(), b);
    }
}

/// Whether `w` occurs in `v`.
pub fn contains_word(v: &Vec<Vec<char>>, w: &Vec<char>) -> (r: bool)
    ensures
        r == text::views(v@).contains(w@),
{
    let mut i: usize = 0;
    while i < v.len()
        invariant
            i <= v@.len(),
            forall|k: int| 0 <= k < i ==> text::views(v@)[k] != w@,
        decreases v@.len() - i,
    {
        if chars_eq(&v[i], w) {
            assert(text::views(v@)[i as int] == w@);
            return true;
        }
        i = i + 1;
    }
    false
}

/// Add `w` to `acc` unless present.
pub fn add_word_exec(acc: &mut Vec<Vec<char>>, w: Vec<char>)
    ensures
        text::views(final(acc)@) == add_word(text::views(old(acc)@), w@),
{
    if !contains_word(acc, &w) {
        let ghost prev = text::views(acc@);
        acc.push(w);
        assert(text::views(acc@) =~= prev.push(w@));
    }
}

/// The distinct words of `v`, in order of first appearance.
pub fn dedup_words(v: &Vec<Vec<char>>) -> (r: Vec<Vec<char>>)
    ensures
        text::views(r@) == dedup(text::views(v@)),
{
    let mut out: Vec<Vec<char>> = Vec::new();
    let mut i: usize = 0;
    assert(text::views(out@) =~= dedup(text::views(v@).take(0)));
    while i < v.len()
        invariant
            i <= v@.len(),
            text::views(out@) == dedup(text::views(v@).take(i as int)),
        decreases v@.len() - i,
    {
        assert(text::views(v@).take(i + 1).drop_last() =~= text::views(v@).take(i as int));
        add_word_exec(&mut out, v[i].clone());
        i = i + 1;
    }
    assert(text::views(v@).take(v@.len() as int) =~= text::views(v@));
    out
}

/// Number of words of `a` that also occur in `b`.
pub fn count_common_exec(a: &Vec<Vec<char>>, b: &Vec<Vec<char>>) -> (r: usize)
    ensures
        r == count_common(text::views(a@), text::views(b@)),
{
    let mut n: usize = 0;
    let mut i: usize = 0;
    while i < a.len()
        invariant
            i <= a@.len(),
            n == count_common(text::views(a@).take(i as int), text::views(b@)),
        decreases a@.len() - i,
    {
        assert(text::views(a@).take(i + 1).drop_last() =~= text::views(a@).take(i as int));
        proof { lemma_count_common_le(text::views(a@).take(i as int), text::views(b@)); }
        if contains_word(b, &a[i]) {
            n = n + 1;
        }
        i = i + 1;
    }
    assert(text::views(a@).take(a@.len() as int) =~= text::views(a@));
    n
}

/// Sizes of the intersection and the union of two duplicate-free word
/// sequences, read as sets.
pub open spec fn overlap_counts(a: Seq<Seq<char>>, b: Seq<Seq<char>>) -> (nat, nat) {
    (count_common(a, b), (a.len() + b.len() - count_common(a, b)) as nat)
}

/// Intersection and union sizes of two duplicate-free word sequences.
pub fn overlap_counts_exec(a: &Vec<Vec<char>>, b: &Vec<Vec<char>>) -> (r: (usize, usize))
    requires
        a@.len() + b@.len() <= usize::MAX,
    ensures
        r.0 == overlap_counts(text::views(a@), text::views(b@)).0,
        r.1 == overlap_counts(text::views(a@), text::views(b@)).1,
{
    let inter = count_common_exec(a, b);
    proof { lemma_count_common_le(text::views(a@), text::views(b@)); }
    let union = (a.len() - inter) + b.len();
    (inter, union)
}

} // verus!
