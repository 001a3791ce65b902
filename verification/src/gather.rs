//! What a search gathers before the model sees it: the direct hits of a
//! list of queries, each unit once and at most `cap` of them, and the
//! one-hop neighbours of those hits that are not hits themselves. The
//! searches and the lookups are the store's; which ids they yield in what
//! order is decided here.
use vstd::prelude::*;
use crate::text;
use crate::text::{chars_of, string_of};
use crate::wordset;
use crate::wordset::{add_word_exec, contains_word, dedup};

verus! {

broadcast use vstd::string::group_string_axioms;

/// The ids of each list, as character sequences.
pub open spec fn lists_view(v: Seq<Vec<String>>) -> Seq<Seq<Seq<char>>> {
    v.map_values(|l: Vec<String>| text::string_views(l@))
}

/// The first `q` lists, one after the other.
pub open spec fn lists_upto(ls: Seq<Seq<Seq<char>>>, q: int) -> Seq<Seq<char>>
    decreases q,
{
    if q <= 0 {
        Seq::empty()
    } else {
        lists_upto(ls, q - 1) + ls[q - 1]
    }
}

/// The items of `s` that are not in `excl`, in order.
pub open spec fn outside(s: Seq<Seq<char>>, excl: Seq<Seq<char>>) -> Seq<Seq<char>>
    decreases s.len(),
{
    if s.len() == 0 {
        Seq::empty()
    } else if excl.contains(s.last()) {
        outside(s.drop_last(), excl)
    } else {
        outside(s.drop_last(), excl).push(s.last())
    }
}

/// The direct hits: every id the queries found, each once in order of
/// first appearance, cut to `cap`.
pub open spec fn direct_hits(ls: Seq<Seq<Seq<char>>>, cap: int) -> Seq<Seq<char>> {
    let all = dedup(lists_upto(ls, ls.len() as int));
    if all.len() <= cap {
        all
    } else {
        all.take(cap)
    }
}

/// How many ids query `q` found that no earlier query had found.
pub open spec fn new_hits(ls: Seq<Seq<Seq<char>>>, q: int) -> int {
    dedup(lists_upto(ls, q + 1)).len() - dedup(lists_upto(ls, q)).len()
}

proof fn lemma_outside_props(s: Seq<Seq<char>>, excl: Seq<Seq<char>>)
    requires
        s.no_duplicates(),
    ensures
        outside(s, excl).no_duplicates(),
        forall|x: Seq<char>| #[trigger] outside(s, excl).contains(x) <==> (s.contains(x) && !excl.contains(x)),
    decreases s.len(),
{
    if s.len() > 0 {
        let d = s.drop_last();
        assert(d.no_duplicates()) by {
            assert forall|a: int, b: int| 0 <= a < b < d.len() implies d[a] != d[b] by {
                assert(d[a] == s[a] && d[b] == s[b]);
            }
        }
        lemma_outside_props(d, excl);
        let p = outside(d, excl);
        assert forall|x: Seq<char>| s.contains(x) <==> (d.contains(x) || x == s.last()) by {
            if s.contains(x) {
                let k = choose|k: int| 0 <= k < s.len() && s[k] == x;
                if k < s.len() - 1 {
                    assert(d[k] == x);
                }
            }
            if d.contains(x) {
                let k = choose|k: int| 0 <= k < d.len() && d[k] == x;
                assert(s[k] == x);
            }
            if x == s.last() {
                assert(s[s.len() - 1] == x);
            }
        }
        assert(!d.contains(s.last())) by {
            if d.contains(s.last()) {
                let k = choose|k: int| 0 <= k < d.len() && d[k] == s.last();
                assert(s[k] == s[s.len() - 1]);
            }
        }
        if !excl.contains(s.last()) {
            let r = p.push(s.last());
            assert forall|x: Seq<char>| #[trigger] r.contains(x) <==> (p.contains(x) || x == s.last()) by {
                if r.contains(x) {
                    let k = choose|k: int| 0 <= k < r.len() && r[k] == x;
                    if k < p.len() {
                        assert(p[k] == x);
                    }
                }
                if p.contains(x) {
                    let k = choose|k: int| 0 <= k < p.len() && p[k] == x;
                    assert(r[k] == x);
                }
                if x == s.last() {
                    assert(r[r.len() - 1] == x);
                }
            }
            assert forall|a: int, b: int| 0 <= a < b < r.len() implies r[a] != r[b] by {
                if b == r.len() - 1 {
                    assert(p.contains(r[a]));
                }
            }
        }
    }
}

/// A search gathers each unit once: the direct hits have no repeats, nor
/// does the expansion, and no expanded unit is also a direct hit.
pub proof fn law_gather_lists_each_unit_once(
    results: Seq<Seq<Seq<char>>>,
    cap: int,
    neighbours: Seq<Seq<Seq<char>>>,
)
    requires
        0 <= cap,
    ensures
        direct_hits(results, cap).no_duplicates(),
        outside(dedup(lists_upto(neighbours, neighbours.len() as int)), direct_hits(results, cap)).no_duplicates(),
        forall|x: Seq<char>|
            #[trigger] outside(
                dedup(lists_upto(neighbours, neighbours.len() as int)),
                direct_hits(results, cap),
            ).contains(x) ==> !direct_hits(results, cap).contains(x),
{
    let all = dedup(lists_upto(results, results.len() as int));
    wordset::lemma_dedup_props(lists_upto(results, results.len() as int));
    let d = direct_hits(results, cap);
    if all.len() > cap {
        assert forall|a: int, b: int| 0 <= a < b < d.len() implies d[a] != d[b] by {
            assert(d[a] == all[a] && d[b] == all[b]);
        }
    }
    let nb = dedup(lists_upto(neighbours, neighbours.len() as int));
    wordset::lemma_dedup_props(lists_upto(neighbours, neighbours.len() as int));
    lemma_outside_props(nb, d);
}

fn views_to_strings(v: &Vec<Vec<char>>, n: usize) -> (r: Vec<String>)
    requires
        n <= v@.len(),
    ensures
        text::string_views(r@) == text::views(v@).take(n as int),
{
    let mut out: Vec<String> = Vec::new();
    let mut i: usize = 0;
    while i < n
        invariant
            n <= v@.len(),
            i <= n,
            text::string_views(out@) == text::views(v@).take(i as int),
        decreases n - i,
    {
        let s = string_of(v[i].as_slice());
        let ghost prev = text::string_views(out@);
        out.push(s);
        assert(text::string_views(out@) =~= prev.push(s@));
        assert(text::views(v@).take(i + 1) =~= text::views(v@).take(i as int).push(v@[i as int]@));
        i = i + 1;
    }
    out
}

/// Add the ids of `list` to `seen`, keeping first appearances; returns how
/// many were new.
fn add_all(seen: &mut Vec<Vec<char>>, list: &Vec<String>, Ghost(base): Ghost<Seq<Seq<char>>>) -> (n: usize)
    requires
        text::views(old(seen)@) == dedup(base),
    ensures
        text::views(final(seen)@) == dedup(base + text::string_views(list@)),
        n + old(seen)@.len() == final(seen)@.len(),
{
    let ghost start = seen@.len();
    let ghost lv = text::string_views(list@);
    let mut n: usize = 0;
    let mut j: usize = 0;
    assert(base + lv.take(0) =~= base);
    while j < list.len()
        invariant
            j <= list@.len(),
            lv == text::string_views(list@),
            text::views(seen@) == dedup(base + lv.take(j as int)),
            n + start == seen@.len(),
        decreases list@.len() - j,
    {
        let before = seen.len();
        let ghost vb = text::views(seen@);
        let ghost w = list@[j as int]@;
        proof {
            assert((base + lv.take(j + 1)).drop_last() =~= base + lv.take(j as int));
            assert((base + lv.take(j + 1)).last() == w);
        }
        add_word_exec(seen, chars_of(list[j].as_str()));
        proof {
            assert(text::views(seen@).len() == seen@.len());
            assert(vb.len() == before);
            if vb.contains(w) {
                assert(text::views(seen@) == vb);
            } else {
                assert(text::views(seen@) == vb.push(w));
            }
        }
        if seen.len() > before {
            n = n + 1;
        }
        j = j + 1;
    }
    assert(lv.take(list@.len() as int) =~= lv);
    n
}

/// Merge the hits of several queries: the distinct ids in order of first
/// appearance, at most `cap` of them, and for each query how many ids it
/// added that no earlier query had found (before the cut).
pub fn merge_query_matches(results: &Vec<Vec<String>>, cap: usize) -> (r: (Vec<String>, Vec<usize>))
    ensures
        text::string_views(r.0@) == direct_hits(lists_view(results@), cap as int),
        r.1@.len() == results@.len(),
        forall|q: int| 0 <= q < results@.len() ==> #[trigger] r.1@[q] == new_hits(lists_view(results@), q),
{
    let ghost ls = lists_view(results@);
    let mut seen: Vec<Vec<char>> = Vec::new();
    let mut counts: Vec<usize> = Vec::new();
    let mut q: usize = 0;
    assert(text::views(seen@) =~= dedup(lists_upto(ls, 0)));
    while q < results.len()
        invariant
            q <= results@.len(),
            ls == lists_view(results@),
            text::views(seen@) == dedup(lists_upto(ls, q as int)),
            counts@.len() == q,
            forall|k: int| 0 <= k < q ==> #[trigger] counts@[k] == new_hits(ls, k),
        decreases results@.len() - q,
    {
        let ghost before = seen@.len();
        let n = add_all(&mut seen, &results[q], Ghost(lists_upto(ls, q as int)));
        proof {
            assert(lists_upto(ls, q + 1) == lists_upto(ls, q as int) + ls[q as int]);
            assert(ls[q as int] == text::string_views(results@[q as int]@));
            assert(text::views(seen@).len() == seen@.len());
        }
        counts.push(n);
        q = q + 1;
    }
    let k: usize = if seen.len() <= cap {
        seen.len()
    } else {
        cap
    };
    let out = views_to_strings(&seen, k);
    proof {
        let all = dedup(lists_upto(ls, ls.len() as int));
        if all.len() <= cap {
            assert(all.take(k as int) =~= all);
        }
    }
    (out, counts)
}

fn outside_exec(s: &Vec<Vec<char>>, excl: &Vec<Vec<char>>) -> (r: Vec<String>)
    ensures
        text::string_views(r@) == outside(text::views(s@), text::views(excl@)),
{
    let mut out: Vec<String> = Vec::new();
    let mut i: usize = 0;
    while i < s.len()
        invariant
            i <= s@.len(),
            text::string_views(out@) == outside(text::views(s@).take(i as int), text::views(excl@)),
        decreases s@.len() - i,
    {
        proof {
            assert(text::views(s@).take(i + 1).drop_last() =~= text::views(s@).take(i as int));
            assert(text::views(s@).take(i + 1).last() == s@[i as int]@);
        }
        if !contains_word(excl, &s[i]) {
            let x = string_of(s[i].as_slice());
            let ghost prev = text::string_views(out@);
            out.push(x);
            assert(text::string_views(out@) =~= prev.push(x@));
        }
        i = i + 1;
    }
    assert(text::views(s@).take(s@.len() as int) =~= text::views(s@));
    out
}

/// The units one link away from the direct hits that are not direct hits
/// themselves: the neighbours of every hit, each once in order of first
/// appearance.
pub fn expansion_ids(direct: &Vec<String>, neighbours: &Vec<Vec<String>>) -> (r: Vec<String>)
    ensures
        text::string_views(r@) == outside(
            dedup(lists_upto(lists_view(neighbours@), neighbours@.len() as int)),
            text::string_views(direct@),
        ),
{
    let ghost ls = lists_view(neighbours@);
    let mut seen: Vec<Vec<char>> = Vec::new();
    let mut q: usize = 0;
    assert(text::views(seen@) =~= dedup(lists_upto(ls, 0)));
    while q < neighbours.len()
        invariant
            q <= neighbours@.len(),
            ls == lists_view(neighbours@),
            text::views(seen@) == dedup(lists_upto(ls, q as int)),
        decreases neighbours@.len() - q,
    {
        let _ = add_all(&mut seen, &neighbours[q], Ghost(lists_upto(ls, q as int)));
        proof {
            assert(lists_upto(ls, q + 1) == lists_upto(ls, q as int) + ls[q as int]);
            assert(ls[q as int] == text::string_views(neighbours@[q as int]@));
        }
        q = q + 1;
    }
    let mut excl: Vec<Vec<char>> = Vec::new();
    let mut i: usize = 0;
    while i < direct.len()
        invariant
            i <= direct@.len(),
            text::views(excl@) == text::string_views(direct@).take(i as int),
        decreases direct@.len() - i,
    {
        let ghost prev = text::views(excl@);
        excl.push(chars_of(direct[i].as_str()));
        assert(text::views(excl@) =~= prev.push(direct@[i as int]@));
        assert(text::string_views(direct@).take(i + 1) =~= text::string_views(direct@).take(i as int).push(
            direct@[i as int]@,
        ));
        i = i + 1;
    }
    assert(text::string_views(direct@).take(direct@.len() as int) =~= text::string_views(direct@));
    outside_exec(&seen, &excl)
}

} // verus!
