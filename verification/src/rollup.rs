//! Attribution of audit findings to the aspect that owns each unit: the
//! owner is found by climbing `part_of` edges (breadth first, a bounded
//! number of hops) to the nearest aspect that has a slug.
use vstd::prelude::*;
use crate::text;
use crate::text::{chars_eq, chars_of, lex_lt_exec, lit, str_eq, string_of};
use crate::wordset;
use crate::wordset::{add_word_exec, contains_word};
use crate::display;
use crate::display::derive_headline;
use crate::lint::Finding;
use crate::model::UnitCore;

verus! {

broadcast use vstd::string::group_string_axioms;

/// Largest number of `part_of` hops climbed when looking for an owner.
pub const ROLLUP_MAX_DEPTH: usize = 5;

/// A unit with two or more parents whose update times drift apart.
#[derive(Debug, Clone)]
pub struct DivergenceFinding {
    pub id: String,
    pub headline: String,
    pub unit_type: String,
    pub parent_a_id: String,
    pub parent_a_updated: String,
    pub parent_b_id: String,
    pub parent_b_updated: String,
    pub gap_days: i64,
    pub reason: String,
}

/// Finding counts attributed to one owning aspect (or to no owner).
#[derive(Debug, Clone)]
pub struct AspectRollup {
    pub aspect_id: String,
    pub headline: String,
    pub slug: Option<String>,
    pub procedure_no_trigger: usize,
    pub orphan: usize,
    pub dupe: usize,
    pub dual_parent_divergence: usize,
    pub total: usize,
}

/// The store's shape as far as ownership goes.
pub struct Graph {
    /// Live units.
    pub units: Vec<UnitCore>,
    /// `(slug, unit_id)` rows.
    pub slugs: Vec<(String, String)>,
    /// `(child, parent)` for every `part_of` edge.
    pub part_of: Vec<(String, String)>,
}

// ---------------------------------------------------------------------------
// Ownership
// ---------------------------------------------------------------------------

pub open spec fn aspect_type() -> Seq<char> {
    "aspect"@
}

/// The last unit with id `n` among the first `k`.
pub open spec fn unit_with_id(us: Seq<UnitCore>, n: Seq<char>, k: int) -> Option<UnitCore>
    decreases k,
{
    if k <= 0 {
        None
    } else if us[k - 1].id@ == n {
        Some(us[k - 1])
    } else {
        unit_with_id(us, n, k - 1)
    }
}

pub open spec fn unit_by_id(g: Graph, n: Seq<char>) -> Option<UnitCore> {
    unit_with_id(g.units@, n, g.units@.len() as int)
}

/// Some slug row names `n`.
pub open spec fn has_slug(g: Graph, n: Seq<char>) -> bool {
    exists|k: int| 0 <= k < g.slugs@.len() && #[trigger] g.slugs@[k].1@ == n
}

/// `n` is an aspect with a slug.
pub open spec fn is_owner(g: Graph, n: Seq<char>) -> bool {
    unit_by_id(g, n) matches Some(u) && u.unit_type@ == aspect_type() && has_slug(g, n)
}

/// Parents of `n` among the first `k` edges, in edge order.
pub open spec fn parents_upto(g: Graph, n: Seq<char>, k: int) -> Seq<Seq<char>>
    decreases k,
{
    if k <= 0 {
        Seq::empty()
    } else if g.part_of@[k - 1].0@ == n {
        parents_upto(g, n, k - 1).push(g.part_of@[k - 1].1@)
    } else {
        parents_upto(g, n, k - 1)
    }
}

pub open spec fn parents_of(g: Graph, n: Seq<char>) -> Seq<Seq<char>> {
    parents_upto(g, n, g.part_of@.len() as int)
}

/// One level of the climb, from position `i` of `front`: nodes already
/// visited are skipped, the first owner met is returned, and the parents
/// of the others form the next level. Result: (owner found, visited,
/// next level).
pub open spec fn scan_level(
    g: Graph,
    front: Seq<Seq<char>>,
    i: int,
    visited: Seq<Seq<char>>,
    next: Seq<Seq<char>>,
) -> (Option<Seq<char>>, Seq<Seq<char>>, Seq<Seq<char>>)
    decreases front.len() - i,
{
    if i < 0 || i >= front.len() {
        (None, visited, next)
    } else if visited.contains(front[i]) {
        scan_level(g, front, i + 1, visited, next)
    } else if is_owner(g, front[i]) {
        (Some(front[i]), visited.push(front[i]), next)
    } else {
        scan_level(g, front, i + 1, visited.push(front[i]), next + parents_of(g, front[i]))
    }
}

/// The climb from level `depth` (at most `ROLLUP_MAX_DEPTH + 1` levels).
pub open spec fn climb(g: Graph, front: Seq<Seq<char>>, visited: Seq<Seq<char>>, depth: int) -> Option<
    Seq<char>,
>
    decreases ROLLUP_MAX_DEPTH + 1 - depth,
{
    if depth < 0 || depth > ROLLUP_MAX_DEPTH {
        None
    } else {
        let (found, v, next) = scan_level(g, front, 0, visited, Seq::empty());
        if found is Some {
            found
        } else if next.len() == 0 {
            None
        } else {
            climb(g, next, v, depth + 1)
        }
    }
}

/// The owning aspect of unit `id`: the nearest aspect with a slug reached
/// from it (itself included) through `part_of` edges, breadth first.
pub open spec fn owner_of(g: Graph, id: Seq<char>) -> Option<Seq<char>> {
    climb(g, seq![id], Seq::empty(), 0)
}

fn is_owner_exec(g: &Graph, n: &Vec<char>) -> (r: bool)
    ensures
        r == is_owner(*g, n@),
{
    let mut k: usize = g.units.len();
    let mut hit: Option<usize> = None;
    while k > 0 && hit.is_none()
        invariant
            k <= g.units@.len(),
            hit matches Some(j) ==> j < g.units@.len() && unit_by_id(*g, n@) == Some(g.units@[j as int]),
            hit is None ==> unit_by_id(*g, n@) == unit_with_id(g.units@, n@, k as int),
        decreases k, if hit is None { 1int } else { 0int },
    {
        let idc = chars_of(g.units[k - 1].id.as_str());
        if chars_eq(&idc, n) {
            hit = Some(k - 1);
        } else {
            k = k - 1;
        }
    }
    match hit {
        None => false,
        Some(j) => {
            if !str_eq(g.units[j].unit_type.as_str(), "aspect") {
                return false;
            }
            let mut s: usize = 0;
            while s < g.slugs.len()
                invariant
                    s <= g.slugs@.len(),
                    j < g.units@.len(),
                    unit_by_id(*g, n@) == Some(g.units@[j as int]),
                    g.units@[j as int].unit_type@ == aspect_type(),
                    forall|x: int| 0 <= x < s ==> #[trigger] g.slugs@[x].1@ != n@,
                decreases g.slugs@.len() - s,
            {
                let u = chars_of(g.slugs[s].1.as_str());
                if chars_eq(&u, n) {
                    assert(g.slugs@[s as int].1@ == n@);
                    assert(has_slug(*g, n@));
                    return true;
                }
                s = s + 1;
            }
            false
        },
    }
}

fn parents_exec(g: &Graph, n: &Vec<char>) -> (r: Vec<Vec<char>>)
    ensures
        text::views(r@) == parents_of(*g, n@),
{
    let mut out: Vec<Vec<char>> = Vec::new();
    let mut k: usize = 0;
    assert(text::views(out@) =~= parents_upto(*g, n@, 0));
    while k < g.part_of.len()
        invariant
            k <= g.part_of@.len(),
            text::views(out@) == parents_upto(*g, n@, k as int),
        decreases g.part_of@.len() - k,
    {
        let c = chars_of(g.part_of[k].0.as_str());
        if chars_eq(&c, n) {
            let ghost prev = text::views(out@);
            out.push(chars_of(g.part_of[k].1.as_str()));
            assert(text::views(out@) =~= prev.push(g.part_of@[k as int].1@));
        }
        k = k + 1;
    }
    out
}

/// The owning aspect of unit `id`, if any.
pub fn find_owner(g: &Graph, id: &str) -> (r: Option<String>)
    ensures
        match r {
            Some(s) => owner_of(*g, id@) == Some(s@),
            None => owner_of(*g, id@) is None,
        },
{
    let mut front: Vec<Vec<char>> = Vec::new();
    front.push(chars_of(id));
    let mut visited: Vec<Vec<char>> = Vec::new();
    let mut depth: usize = 0;
    proof {
        assert(text::views(front@) =~= seq![id@]);
        assert(text::views(visited@) =~= Seq::<Seq<char>>::empty());
    }
    while depth <= ROLLUP_MAX_DEPTH
        invariant
            depth <= ROLLUP_MAX_DEPTH + 1,
            climb(*g, text::views(front@), text::views(visited@), depth as int) == owner_of(*g, id@),
        decreases ROLLUP_MAX_DEPTH + 1 - depth,
    {
        let ghost f0 = text::views(front@);
        let ghost v0 = text::views(visited@);
        let mut next: Vec<Vec<char>> = Vec::new();
        let mut i: usize = 0;
        proof {
            assert(text::views(next@) =~= Seq::<Seq<char>>::empty());
        }
        while i < front.len()
            invariant
                i <= front@.len(),
                depth <= ROLLUP_MAX_DEPTH,
                climb(*g, f0, v0, depth as int) == owner_of(*g, id@),
                f0 == text::views(front@),
                scan_level(*g, f0, i as int, text::views(visited@), text::views(next@)) == scan_level(
                    *g,
                    f0,
                    0,
                    v0,
                    Seq::empty(),
                ),
            decreases front@.len() - i,
        {
            let n = &front[i];
            proof {
                assert(f0[i as int] == n@);
            }
            if !contains_word(&visited, n) {
                let ghost vv = text::views(visited@);
                let ghost nv0 = text::views(next@);
                let nc = n.clone();
                assert(nc@ =~= n@);
                visited.push(nc);
                proof {
                    assert(text::views(visited@) =~= vv.push(n@));
                }
                if is_owner_exec(g, n) {
                    proof {
                        assert(scan_level(*g, f0, i as int, vv, nv0) == (Some(n@), vv.push(n@), nv0));
                        assert(climb(*g, f0, v0, depth as int) == Some(n@));
                    }
                    return Some(string_of(n.as_slice()));
                }
                let ps = parents_exec(g, n);
                let ghost nv = text::views(next@);
                let mut q: usize = 0;
                while q < ps.len()
                    invariant
                        q <= ps@.len(),
                        text::views(next@) == nv + text::views(ps@).take(q as int),
                    decreases ps@.len() - q,
                {
                    let pc = ps[q].clone();
                    assert(pc@ =~= ps@[q as int]@);
                    let ghost before = text::views(next@);
                    next.push(pc);
                    proof {
                        assert(text::views(next@) =~= before.push(ps@[q as int]@));
                        assert(text::views(ps@)[q as int] == ps@[q as int]@);
                        assert(text::views(ps@).take(q + 1) =~= text::views(ps@).take(q as int).push(ps@[q as int]@));
                    }
                    q = q + 1;
                    proof {
                        assert(text::views(next@) =~= nv + text::views(ps@).take(q as int));
                    }
                }
                proof {
                    assert(text::views(ps@).take(ps@.len() as int) =~= text::views(ps@));
                }
            }
            i = i + 1;
        }
        if next.len() == 0 {
            return None;
        }
        front = next;
        depth = depth + 1;
    }
    None
}

// ---------------------------------------------------------------------------
// Tally by owner
// ---------------------------------------------------------------------------

pub open spec fn unowned() -> Seq<char> {
    "(unowned)"@
}

/// The tally key of a unit: its owner, or `(unowned)`.
pub open spec fn key_of(g: Graph, id: Seq<char>) -> Seq<char> {
    match owner_of(g, id) {
        Some(o) => o,
        None => unowned(),
    }
}

/// Ids of flagged units with the category of the check that flagged them:
/// 0 procedure-without-trigger, 1 orphan, 2 duplicate (both sides of a
/// pair), 3 divergent parents.
pub open spec fn flagged(
    pnt: Seq<Finding>,
    orphan: Seq<Finding>,
    dupe: Seq<(String, String)>,
    div: Seq<DivergenceFinding>,
) -> Seq<(Seq<char>, int)> {
    pnt.map_values(|f: Finding| (f.id@, 0int)) + orphan.map_values(|f: Finding| (f.id@, 1int))
        + dupe_sides(dupe, dupe.len() as int) + div.map_values(
        |f: DivergenceFinding| (f.id@, 3int),
    )
}

pub open spec fn dupe_sides(dupe: Seq<(String, String)>, k: int) -> Seq<(Seq<char>, int)>
    decreases k,
{
    if k <= 0 {
        Seq::empty()
    } else {
        dupe_sides(dupe, k - 1).push((dupe[k - 1].0@, 2int)).push((dupe[k - 1].1@, 2int))
    }
}

/// Number of the first `k` events that carry `key` and category `cat`.
pub open spec fn cat_count(ev: Seq<(Seq<char>, int)>, key: Seq<char>, cat: int, k: int) -> int
    decreases k,
{
    if k <= 0 {
        0
    } else {
        cat_count(ev, key, cat, k - 1) + if ev[k - 1].0 == key && ev[k - 1].1 == cat {
            1int
        } else {
            0int
        }
    }
}

/// The smallest slug among the first `j` rows that name `id`.
pub open spec fn min_slug(rows: Seq<(String, String)>, id: Seq<char>, j: int) -> Option<Seq<char>>
    decreases j,
{
    if j <= 0 {
        None
    } else {
        let prev = min_slug(rows, id, j - 1);
        if rows[j - 1].1@ == id {
            match prev {
                None => Some(rows[j - 1].0@),
                Some(s) => if text::lex_lt(rows[j - 1].0@, s) {
                    Some(rows[j - 1].0@)
                } else {
                    Some(s)
                },
            }
        } else {
            prev
        }
    }
}

/// The view of one roll-up row.
pub open spec fn rollup_view(a: AspectRollup) -> (Seq<char>, Seq<char>, Option<Seq<char>>, int, int, int, int, int) {
    (
        a.aspect_id@,
        a.headline@,
        match a.slug {
            Some(s) => Some(s@),
            None => None,
        },
        a.procedure_no_trigger as int,
        a.orphan as int,
        a.dupe as int,
        a.dual_parent_divergence as int,
        a.total as int,
    )
}

/// The row for tally key `k` given the events.
pub open spec fn rollup_row(g: Graph, ev: Seq<(Seq<char>, int)>, k: Seq<char>) -> (
    Seq<char>,
    Seq<char>,
    Option<Seq<char>>,
    int,
    int,
    int,
    int,
    int,
) {
    let n = ev.len() as int;
    let c0 = cat_count(ev, k, 0, n);
    let c1 = cat_count(ev, k, 1, n);
    let c2 = cat_count(ev, k, 2, n);
    let c3 = cat_count(ev, k, 3, n);
    let (headline, slug) = if k == unowned() {
        ("(no owning aspect)"@, None)
    } else {
        (
            match unit_by_id(g, k) {
                Some(u) => display::headline_spec(u.content@),
                None => k,
            },
            min_slug(g.slugs@, k, g.slugs@.len() as int),
        )
    };
    (k, headline, slug, c0, c1, c2, c3, c0 + c1 + c2 + c3)
}

pub open spec fn row_before(
    x: (Seq<char>, Seq<char>, Option<Seq<char>>, int, int, int, int, int),
    e: (Seq<char>, Seq<char>, Option<Seq<char>>, int, int, int, int, int),
) -> bool {
    x.7 > e.7 || (x.7 == e.7 && text::lex_lt(x.0, e.0))
}

pub open spec fn row_insert_pos(
    s: Seq<(Seq<char>, Seq<char>, Option<Seq<char>>, int, int, int, int, int)>,
    x: (Seq<char>, Seq<char>, Option<Seq<char>>, int, int, int, int, int),
    i: int,
) -> int
    decreases s.len() - i,
{
    if i < 0 || i >= s.len() {
        i
    } else if row_before(x, s[i]) {
        i
    } else {
        row_insert_pos(s, x, i + 1)
    }
}

pub open spec fn sorted_rows(s: Seq<(Seq<char>, Seq<char>, Option<Seq<char>>, int, int, int, int, int)>) -> Seq<
    (Seq<char>, Seq<char>, Option<Seq<char>>, int, int, int, int, int),
>
    decreases s.len(),
{
    if s.len() == 0 {
        Seq::empty()
    } else {
        let sorted = sorted_rows(s.drop_last());
        sorted.insert(row_insert_pos(sorted, s.last(), 0), s.last())
    }
}

/// The roll-up: one row per tally key (in order of first event), the
/// counts of its events by category and their total, sorted by total
/// (largest first) then key.
pub open spec fn rollup_spec(
    g: Graph,
    pnt: Seq<Finding>,
    orphan: Seq<Finding>,
    dupe: Seq<(String, String)>,
    div: Seq<DivergenceFinding>,
) -> Seq<(Seq<char>, Seq<char>, Option<Seq<char>>, int, int, int, int, int)> {
    let ev = flagged(pnt, orphan, dupe, div).map_values(|e: (Seq<char>, int)| (key_of(g, e.0), e.1));
    let keys = wordset::dedup(ev.map_values(|e: (Seq<char>, int)| e.0));
    sorted_rows(keys.map_values(|k: Seq<char>| rollup_row(g, ev, k)))
}

pub open spec fn ev_views(v: Seq<(Vec<char>, usize)>) -> Seq<(Seq<char>, int)> {
    v.map_values(|e: (Vec<char>, usize)| (e.0@, e.1 as int))
}

fn push_ids_of_findings(out: &mut Vec<(Vec<char>, usize)>, fs: &Vec<Finding>, cat: usize)
    ensures
        ev_views(final(out)@) == ev_views(old(out)@) + fs@.map_values(|f: Finding| (f.id@, cat as int)),
{
    let ghost start = ev_views(out@);
    let mut i: usize = 0;
    while i < fs.len()
        invariant
            i <= fs@.len(),
            ev_views(out@) == start + fs@.take(i as int).map_values(|f: Finding| (f.id@, cat as int)),
        decreases fs@.len() - i,
    {
        let ghost before = ev_views(out@);
        let x = chars_of(fs[i].id.as_str());
        out.push((x, cat));
        proof {
            assert(ev_views(out@) =~= before.push((fs@[i as int].id@, cat as int)));
            assert(fs@.take(i + 1).map_values(|f: Finding| (f.id@, cat as int)) =~= fs@.take(
                i as int,
            ).map_values(|f: Finding| (f.id@, cat as int)).push((fs@[i as int].id@, cat as int)));
        }
        i = i + 1;
        proof {
            assert(ev_views(out@) =~= start + fs@.take(i as int).map_values(
                |f: Finding| (f.id@, cat as int),
            ));
        }
    }
    assert(fs@.take(fs@.len() as int) =~= fs@);
}

fn flagged_exec(
    pnt: &Vec<Finding>,
    orphan: &Vec<Finding>,
    dupe: &Vec<(String, String)>,
    div: &Vec<DivergenceFinding>,
) -> (r: Vec<(Vec<char>, usize)>)
    ensures
        ev_views(r@) == flagged(pnt@, orphan@, dupe@, div@),
{
    let mut out: Vec<(Vec<char>, usize)> = Vec::new();
    assert(ev_views(out@) =~= Seq::<(Seq<char>, int)>::empty());
    push_ids_of_findings(&mut out, pnt, 0);
    push_ids_of_findings(&mut out, orphan, 1);
    let ghost base = ev_views(out@);
    let mut i: usize = 0;
    assert(base + dupe_sides(dupe@, 0) =~= base);
    while i < dupe.len()
        invariant
            i <= dupe@.len(),
            ev_views(out@) == base + dupe_sides(dupe@, i as int),
        decreases dupe@.len() - i,
    {
        let ghost before = ev_views(out@);
        let a = chars_of(dupe[i].0.as_str());
        let b = chars_of(dupe[i].1.as_str());
        out.push((a, 2));
        out.push((b, 2));
        proof {
            assert(ev_views(out@) =~= before.push((dupe@[i as int].0@, 2int)).push(
                (dupe@[i as int].1@, 2int),
            ));
        }
        i = i + 1;
        proof {
            assert(ev_views(out@) =~= base + dupe_sides(dupe@, i as int));
        }
    }
    let ghost base2 = ev_views(out@);
    let mut j: usize = 0;
    while j < div.len()
        invariant
            j <= div@.len(),
            ev_views(out@) == base2 + div@.take(j as int).map_values(
                |f: DivergenceFinding| (f.id@, 3int),
            ),
        decreases div@.len() - j,
    {
        let ghost before = ev_views(out@);
        let x = chars_of(div[j].id.as_str());
        out.push((x, 3));
        proof {
            assert(ev_views(out@) =~= before.push((div@[j as int].id@, 3int)));
            assert(div@.take(j + 1).map_values(|f: DivergenceFinding| (f.id@, 3int)) =~= div@.take(
                j as int,
            ).map_values(|f: DivergenceFinding| (f.id@, 3int)).push((div@[j as int].id@, 3int)));
        }
        j = j + 1;
        proof {
            assert(ev_views(out@) =~= base2 + div@.take(j as int).map_values(
                |f: DivergenceFinding| (f.id@, 3int),
            ));
        }
    }
    assert(div@.take(div@.len() as int) =~= div@);
    assert(ev_views(out@) =~= flagged(pnt@, orphan@, dupe@, div@));
    out
}

proof fn lemma_cat_sum_le(ev: Seq<(Seq<char>, int)>, key: Seq<char>, k: int)
    requires
        0 <= k <= ev.len(),
    ensures
        0 <= cat_count(ev, key, 0, k),
        0 <= cat_count(ev, key, 1, k),
        0 <= cat_count(ev, key, 2, k),
        0 <= cat_count(ev, key, 3, k),
        cat_count(ev, key, 0, k) + cat_count(ev, key, 1, k) + cat_count(ev, key, 2, k) + cat_count(
            ev,
            key,
            3,
            k,
        ) <= k,
    decreases k,
{
    if k > 0 {
        lemma_cat_sum_le(ev, key, k - 1);
    }
}

fn cat_counts(ev: &Vec<(Vec<char>, usize)>, key: &Vec<char>) -> (r: (usize, usize, usize, usize))
    ensures
        r.0 as int == cat_count(ev_views(ev@), key@, 0, ev@.len() as int),
        r.1 as int == cat_count(ev_views(ev@), key@, 1, ev@.len() as int),
        r.2 as int == cat_count(ev_views(ev@), key@, 2, ev@.len() as int),
        r.3 as int == cat_count(ev_views(ev@), key@, 3, ev@.len() as int),
        r.0 + r.1 + r.2 + r.3 <= ev.len(),
{
    let ghost e = ev_views(ev@);
    let mut c = (0usize, 0usize, 0usize, 0usize);
    let mut i: usize = 0;
    while i < ev.len()
        invariant
            i <= ev@.len(),
            e == ev_views(ev@),
            c.0 as int == cat_count(e, key@, 0, i as int),
            c.1 as int == cat_count(e, key@, 1, i as int),
            c.2 as int == cat_count(e, key@, 2, i as int),
            c.3 as int == cat_count(e, key@, 3, i as int),
        decreases ev@.len() - i,
    {
        proof {
            lemma_cat_sum_le(e, key@, i as int);
            assert(e[i as int] == (ev@[i as int].0@, ev@[i as int].1 as int));
        }
        if chars_eq(&ev[i].0, key) {
            let cat = ev[i].1;
            if cat == 0 {
                c.0 = c.0 + 1;
            } else if cat == 1 {
                c.1 = c.1 + 1;
            } else if cat == 2 {
                c.2 = c.2 + 1;
            } else if cat == 3 {
                c.3 = c.3 + 1;
            }
        }
        i = i + 1;
    }
    proof {
        lemma_cat_sum_le(e, key@, ev@.len() as int);
    }
    c
}

fn min_slug_exec(rows: &Vec<(String, String)>, id: &Vec<char>) -> (r: Option<Vec<char>>)
    ensures
        match r {
            Some(s) => min_slug(rows@, id@, rows@.len() as int) == Some(s@),
            None => min_slug(rows@, id@, rows@.len() as int) is None,
        },
{
    let mut best: Option<Vec<char>> = None;
    let mut j: usize = 0;
    while j < rows.len()
        invariant
            j <= rows@.len(),
            match best {
                Some(s) => min_slug(rows@, id@, j as int) == Some(s@),
                None => min_slug(rows@, id@, j as int) is None,
            },
        decreases rows@.len() - j,
    {
        let u = chars_of(rows[j].1.as_str());
        if chars_eq(&u, id) {
            let sl = chars_of(rows[j].0.as_str());
            best = match best {
                None => Some(sl),
                Some(b) => if lex_lt_exec(&sl, &b) {
                    Some(sl)
                } else {
                    Some(b)
                },
            };
        }
        j = j + 1;
    }
    best
}

fn headline_for(g: &Graph, k: &Vec<char>) -> (r: Vec<char>)
    ensures
        r@ == match unit_by_id(*g, k@) {
            Some(u) => display::headline_spec(u.content@),
            None => k@,
        },
{
    let mut i: usize = g.units.len();
    while i > 0
        invariant
            i <= g.units@.len(),
            unit_by_id(*g, k@) == unit_with_id(g.units@, k@, i as int),
        decreases i,
    {
        let idc = chars_of(g.units[i - 1].id.as_str());
        if chars_eq(&idc, k) {
            let h = derive_headline(g.units[i - 1].content.as_str());
            return chars_of(h.as_str());
        }
        i = i - 1;
    }
    k.clone()
}

proof fn lemma_row_insert_pos_bounds(
    s: Seq<(Seq<char>, Seq<char>, Option<Seq<char>>, int, int, int, int, int)>,
    x: (Seq<char>, Seq<char>, Option<Seq<char>>, int, int, int, int, int),
    i: int,
)
    requires
        0 <= i <= s.len(),
    ensures
        i <= row_insert_pos(s, x, i) <= s.len(),
    decreases s.len() - i,
{
    if i < s.len() && !row_before(x, s[i]) {
        lemma_row_insert_pos_bounds(s, x, i + 1);
    }
}

/// Attribute each finding to the owning aspect of its unit (both units of
/// a duplicate pair count), tally by owner and category, and list the
/// owners with the most findings first (ties by owner id). Findings whose
/// unit has no owner are tallied under `(unowned)`.
pub fn rollup_by_aspect(
    g: &Graph,
    pnt: &Vec<Finding>,
    orphan: &Vec<Finding>,
    dupe: &Vec<(String, String)>,
    div: &Vec<DivergenceFinding>,
) -> (r: Vec<AspectRollup>)
    ensures
        r@.map_values(|a: AspectRollup| rollup_view(a)) == rollup_spec(*g, pnt@, orphan@, dupe@, div@),
{
    let ids = flagged_exec(pnt, orphan, dupe, div);
    let ghost fl = flagged(pnt@, orphan@, dupe@, div@);
    let unowned_key = lit("(unowned)");
    proof {
        reveal_strlit("(unowned)");
    }
    // Tally key of every flagged unit.
    let mut ev: Vec<(Vec<char>, usize)> = Vec::new();
    let mut i: usize = 0;
    let ghost evs = fl.map_values(|e: (Seq<char>, int)| (key_of(*g, e.0), e.1));
    while i < ids.len()
        invariant
            i <= ids@.len(),
            ev_views(ids@) == fl,
            evs == fl.map_values(|e: (Seq<char>, int)| (key_of(*g, e.0), e.1)),
            unowned_key@ == unowned(),
            ev@.len() == i,
            forall|k: int| 0 <= k < i ==> #[trigger] ev_views(ev@)[k] == evs[k],
        decreases ids@.len() - i,
    {
        let id = string_of(ids[i].0.as_slice());
        let key = match find_owner(g, id.as_str()) {
            Some(o) => chars_of(o.as_str()),
            None => unowned_key.clone(),
        };
        proof {
            assert(fl[i as int] == (ids@[i as int].0@, ids@[i as int].1 as int));
        }
        let ghost before = ev_views(ev@);
        let cat = ids[i].1;
        ev.push((key, cat));
        proof {
            assert(ev_views(ev@) =~= before.push((ev@[i as int].0@, cat as int)));
            assert(ev_views(ev@)[i as int] == evs[i as int]);
            assert forall|k: int| 0 <= k < i + 1 implies #[trigger] ev_views(ev@)[k] == evs[k] by {
                if k < i {
                    assert(ev_views(ev@)[k] == before[k]);
                }
            }
        }
        i = i + 1;
    }
    assert(ev_views(ev@) =~= evs);
    // Distinct keys in order of first event.
    let mut key_list: Vec<Vec<char>> = Vec::new();
    let mut j: usize = 0;
    while j < ev.len()
        invariant
            j <= ev@.len(),
            key_list@.len() == j,
            forall|k: int| 0 <= k < j ==> #[trigger] key_list@[k]@ == ev@[k].0@,
        decreases ev@.len() - j,
    {
        let kc = ev[j].0.clone();
        assert(kc@ =~= ev@[j as int].0@);
        key_list.push(kc);
        j = j + 1;
    }
    let ghost kv = evs.map_values(|e: (Seq<char>, int)| e.0);
    assert(text::views(key_list@) =~= kv);
    let keys = wordset::dedup_words(&key_list);
    let ghost dk = wordset::dedup(kv);
    // Rows, inserted in order.
    let mut rows: Vec<AspectRollup> = Vec::new();
    let mut q: usize = 0;
    assert(rows@.map_values(|a: AspectRollup| rollup_view(a)) =~= sorted_rows(
        dk.take(0).map_values(|k: Seq<char>| rollup_row(*g, evs, k)),
    ));
    while q < keys.len()
        invariant
            q <= keys@.len(),
            text::views(keys@) == dk,
            ev_views(ev@) == evs,
            unowned_key@ == unowned(),
            rows@.map_values(|a: AspectRollup| rollup_view(a)) == sorted_rows(
                dk.take(q as int).map_values(|k: Seq<char>| rollup_row(*g, evs, k)),
            ),
        decreases keys@.len() - q,
    {
        let k = &keys[q];
        proof {
            assert(dk[q as int] == k@);
        }
        let c = cat_counts(&ev, k);
        let total = c.0 + c.1 + c.2 + c.3;
        let is_unowned = chars_eq(k, &unowned_key);
        let (headline, slug) = if is_unowned {
            ("(no owning aspect)".to_owned(), None)
        } else {
            let h = headline_for(g, k);
            let sl = match min_slug_exec(&g.slugs, k) {
                Some(s) => Some(string_of(s.as_slice())),
                None => None,
            };
            (string_of(h.as_slice()), sl)
        };
        let row = AspectRollup {
            aspect_id: string_of(k.as_slice()),
            headline,
            slug,
            procedure_no_trigger: c.0,
            orphan: c.1,
            dupe: c.2,
            dual_parent_divergence: c.3,
            total,
        };
        let ghost rv = rows@.map_values(|a: AspectRollup| rollup_view(a));
        let ghost xs = rollup_row(*g, evs, k@);
        proof {
            assert(rollup_view(row) == xs);
            lemma_row_insert_pos_bounds(rv, xs, 0);
        }
        let mut p: usize = 0;
        while p < rows.len() && !(row.total > rows[p].total || (row.total == rows[p].total
            && lex_lt_exec(k, &chars_of(rows[p].aspect_id.as_str()))))
            invariant
                p <= rows@.len(),
                rv == rows@.map_values(|a: AspectRollup| rollup_view(a)),
                xs == rollup_view(row),
                xs.0 == k@,
                row_insert_pos(rv, xs, p as int) == row_insert_pos(rv, xs, 0),
            decreases rows@.len() - p,
        {
            assert(rv[p as int] == rollup_view(rows@[p as int]));
            p = p + 1;
        }
        proof {
            if p < rows@.len() {
                assert(rv[p as int] == rollup_view(rows@[p as int]));
            }
        }
        rows.insert(p, row);
        proof {
            assert(rows@.map_values(|a: AspectRollup| rollup_view(a)) =~= rv.insert(p as int, xs));
            let t = dk.take(q + 1).map_values(|k: Seq<char>| rollup_row(*g, evs, k));
            assert(t.drop_last() =~= dk.take(q as int).map_values(
                |k: Seq<char>| rollup_row(*g, evs, k),
            ));
            assert(t.last() == xs);
        }
        q = q + 1;
    }
    assert(dk.take(keys@.len() as int) =~= dk);
    rows
}

} // verus!
