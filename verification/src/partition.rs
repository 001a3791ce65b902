//! Union-find over indices `0..n`, with the smaller index kept as the root
//! of every merged class so that class identities are stable, and the
//! grouping of indices by class.
//!
//! The meaning of a sequence of unions is given by [`merged_roots`], a
//! quick-find model: a map from every index to the least index of its
//! class. The executable structure uses parent links with path halving
//! and is proved to agree with the model.
use vstd::prelude::*;

verus! {

// ---------------------------------------------------------------------------
// Model
// ---------------------------------------------------------------------------

/// Every class of `m` whose root is `ra` or `rb` merged under the smaller.
pub open spec fn merge_roots(m: Seq<int>, ra: int, rb: int) -> Seq<int> {
    let lo = if ra < rb {
        ra
    } else {
        rb
    };
    Seq::new(m.len(), |i: int| if m[i] == ra || m[i] == rb { lo } else { m[i] })
}

/// The identity map on `0..n`: every index alone in its class.
pub open spec fn singletons(n: nat) -> Seq<int> {
    Seq::new(n, |i: int| i)
}

/// Root of every index after the first `k` unions of `pairs`, starting from
/// singletons over `0..n`.
pub open spec fn merged_roots(n: nat, pairs: Seq<(int, int)>, k: int) -> Seq<int>
    decreases k,
{
    if k <= 0 {
        singletons(n)
    } else {
        let m = merged_roots(n, pairs, k - 1);
        let (a, b) = pairs[k - 1];
        merge_roots(m, m[a], m[b])
    }
}

/// A root map is well formed: every index maps to a root of itself that is
/// no larger than it.
pub open spec fn root_map_wf(m: Seq<int>) -> bool {
    forall|i: int| 0 <= i < m.len() ==> 0 <= #[trigger] m[i] <= i && m[m[i]] == m[i]
}

pub proof fn lemma_merge_wf(m: Seq<int>, a: int, b: int)
    requires
        root_map_wf(m),
        0 <= a < m.len(),
        0 <= b < m.len(),
    ensures
        root_map_wf(merge_roots(m, m[a], m[b])),
        merge_roots(m, m[a], m[b])[a] == merge_roots(m, m[a], m[b])[b],
        merge_roots(m, m[a], m[b]).len() == m.len(),
{
    let m2 = merge_roots(m, m[a], m[b]);
    let ra = m[a];
    let rb = m[b];
    let lo = if ra < rb { ra } else { rb };
    assert forall|i: int| 0 <= i < m2.len() implies 0 <= #[trigger] m2[i] <= i && m2[m2[i]] == m2[i] by {
        if m[i] == ra || m[i] == rb {
            assert(m2[i] == lo);
            assert(m[lo] == lo);
            assert(m2[lo] == lo);
        } else {
            assert(m2[i] == m[i]);
            assert(m[m[i]] == m[i]);
            assert(m[i] != ra && m[i] != rb);
        }
    }
}

/// Edge endpoints are all below `n`.
pub open spec fn pairs_in_range(n: nat, pairs: Seq<(int, int)>) -> bool {
    forall|k: int| 0 <= k < pairs.len() ==> 0 <= (#[trigger] pairs[k]).0 < n && 0 <= pairs[k].1 < n
}

pub proof fn lemma_merged_roots_wf(n: nat, pairs: Seq<(int, int)>, k: int)
    requires
        pairs_in_range(n, pairs),
        0 <= k <= pairs.len(),
    ensures
        root_map_wf(merged_roots(n, pairs, k)),
        merged_roots(n, pairs, k).len() == n,
    decreases k,
{
    if k > 0 {
        lemma_merged_roots_wf(n, pairs, k - 1);
        let (a, b) = pairs[k - 1];
        lemma_merge_wf(merged_roots(n, pairs, k - 1), a, b);
    }
}

/// The roots after `k` unions depend on the first `k` pairs only.
pub proof fn lemma_merged_roots_prefix(n: nat, p: Seq<(int, int)>, q: Seq<(int, int)>, k: int)
    requires
        0 <= k <= p.len(),
        k <= q.len(),
        forall|i: int| 0 <= i < k ==> p[i] == q[i],
    ensures
        merged_roots(n, p, k) == merged_roots(n, q, k),
    decreases k,
{
    if k > 0 {
        lemma_merged_roots_prefix(n, p, q, k - 1);
    }
}

/// Once two indices share a root, later unions keep them together.
pub proof fn lemma_merge_keeps_together(m: Seq<int>, ra: int, rb: int, x: int, y: int)
    requires
        0 <= x < m.len(),
        0 <= y < m.len(),
        m[x] == m[y],
    ensures
        merge_roots(m, ra, rb)[x] == merge_roots(m, ra, rb)[y],
{
}

proof fn lemma_together_after(n: nat, pairs: Seq<(int, int)>, j: int, k: int, x: int, y: int)
    requires
        pairs_in_range(n, pairs),
        0 <= j <= k <= pairs.len(),
        0 <= x < n,
        0 <= y < n,
        merged_roots(n, pairs, j)[x] == merged_roots(n, pairs, j)[y],
    ensures
        merged_roots(n, pairs, k)[x] == merged_roots(n, pairs, k)[y],
    decreases k - j,
{
    if j < k {
        lemma_merged_roots_wf(n, pairs, j);
        let m = merged_roots(n, pairs, j);
        let (a, b) = pairs[j];
        lemma_merge_keeps_together(m, m[a], m[b], x, y);
        lemma_together_after(n, pairs, j + 1, k, x, y);
    }
}

/// After all unions, the two ends of every pair share a root, and every
/// root is the smallest index of its class (no larger than any member).
pub proof fn law_unions_join_endpoints(n: nat, pairs: Seq<(int, int)>)
    requires
        pairs_in_range(n, pairs),
    ensures
        forall|k: int|
            0 <= k < pairs.len() ==> merged_roots(n, pairs, pairs.len() as int)[(#[trigger] pairs[k]).0]
                == merged_roots(n, pairs, pairs.len() as int)[pairs[k].1],
        forall|i: int| 0 <= i < n ==> #[trigger] merged_roots(n, pairs, pairs.len() as int)[i] <= i,
{
    lemma_merged_roots_wf(n, pairs, pairs.len() as int);
    assert forall|k: int| 0 <= k < pairs.len() implies merged_roots(n, pairs, pairs.len() as int)[(
    #[trigger] pairs[k]).0] == merged_roots(n, pairs, pairs.len() as int)[pairs[k].1] by {
        lemma_merged_roots_wf(n, pairs, k);
        let m = merged_roots(n, pairs, k);
        let (a, b) = pairs[k];
        lemma_merge_wf(m, a, b);
        lemma_together_after(n, pairs, k + 1, pairs.len() as int, a, b);
    }
}

// ---------------------------------------------------------------------------
// Classes as connectivity
// ---------------------------------------------------------------------------

/// `u` and `v` are the two ends (either way round) of one of the first `k`
/// pairs.
pub open spec fn paired(pairs: Seq<(int, int)>, k: int, u: int, v: int) -> bool {
    exists|j: int|
        0 <= j < k && ((#[trigger] pairs[j]).0 == u && pairs[j].1 == v || pairs[j].0 == v && pairs[j].1 == u)
}

/// `p` walks from index to index along the first `k` pairs.
pub open spec fn is_walk(pairs: Seq<(int, int)>, k: int, p: Seq<int>) -> bool {
    &&& p.len() > 0
    &&& forall|i: int| 0 <= i < p.len() - 1 ==> paired(pairs, k, #[trigger] p[i], p[i + 1])
}

/// `x` and `y` are joined by the first `k` unions: some walk along those
/// pairs leads from `x` to `y` (the equivalence closure of the pairs).
pub open spec fn joined(pairs: Seq<(int, int)>, k: int, x: int, y: int) -> bool {
    exists|p: Seq<int>| #[trigger] is_walk(pairs, k, p) && p[0] == x && p.last() == y
}

proof fn lemma_joined_refl(pairs: Seq<(int, int)>, k: int, x: int)
    ensures
        joined(pairs, k, x, x),
{
    let p = seq![x];
    assert(is_walk(pairs, k, p));
}

proof fn lemma_joined_pair(pairs: Seq<(int, int)>, k: int, j: int)
    requires
        0 <= j < k,
    ensures
        joined(pairs, k, pairs[j].0, pairs[j].1),
{
    let p = seq![pairs[j].0, pairs[j].1];
    assert(paired(pairs, k, p[0], p[1]));
    assert(is_walk(pairs, k, p));
}

proof fn lemma_joined_sym(pairs: Seq<(int, int)>, k: int, x: int, y: int)
    requires
        joined(pairs, k, x, y),
    ensures
        joined(pairs, k, y, x),
{
    let p = choose|p: Seq<int>| #[trigger] is_walk(pairs, k, p) && p[0] == x && p.last() == y;
    let q = p.reverse();
    assert forall|i: int| 0 <= i < q.len() - 1 implies paired(pairs, k, #[trigger] q[i], q[i + 1]) by {
        let a = p.len() - 2 - i;
        assert(paired(pairs, k, p[a], p[a + 1]));
        assert(q[i] == p[a + 1] && q[i + 1] == p[a]);
        let j = choose|j: int|
            0 <= j < k && ((#[trigger] pairs[j]).0 == p[a] && pairs[j].1 == p[a + 1] || pairs[j].0 == p[a + 1]
                && pairs[j].1 == p[a]);
        assert(pairs[j].0 == q[i] && pairs[j].1 == q[i + 1] || pairs[j].0 == q[i + 1] && pairs[j].1 == q[i]);
    }
    assert(is_walk(pairs, k, q));
}

proof fn lemma_joined_trans(pairs: Seq<(int, int)>, k: int, x: int, y: int, z: int)
    requires
        joined(pairs, k, x, y),
        joined(pairs, k, y, z),
    ensures
        joined(pairs, k, x, z),
{
    let p = choose|p: Seq<int>| #[trigger] is_walk(pairs, k, p) && p[0] == x && p.last() == y;
    let q = choose|q: Seq<int>| #[trigger] is_walk(pairs, k, q) && q[0] == y && q.last() == z;
    let r = p + q.drop_first();
    assert forall|i: int| 0 <= i < r.len() - 1 implies paired(pairs, k, #[trigger] r[i], r[i + 1]) by {
        if i < p.len() - 1 {
            assert(r[i] == p[i] && r[i + 1] == p[i + 1]);
            assert(paired(pairs, k, p[i], p[i + 1]));
        } else {
            let a = i - (p.len() - 1);
            assert(r[i] == q[a] && r[i + 1] == q[a + 1]);
            assert(paired(pairs, k, q[a], q[a + 1]));
        }
    }
    assert(is_walk(pairs, k, r));
}

proof fn lemma_joined_more(pairs: Seq<(int, int)>, k: int, k2: int, x: int, y: int)
    requires
        joined(pairs, k, x, y),
        k <= k2,
    ensures
        joined(pairs, k2, x, y),
{
    let p = choose|p: Seq<int>| #[trigger] is_walk(pairs, k, p) && p[0] == x && p.last() == y;
    assert forall|i: int| 0 <= i < p.len() - 1 implies paired(pairs, k2, #[trigger] p[i], p[i + 1]) by {
        assert(paired(pairs, k, p[i], p[i + 1]));
    }
    assert(is_walk(pairs, k2, p));
}

/// Every index is joined to its root.
proof fn lemma_joined_to_root(n: nat, pairs: Seq<(int, int)>, k: int, x: int)
    requires
        pairs_in_range(n, pairs),
        0 <= k <= pairs.len(),
        0 <= x < n,
    ensures
        joined(pairs, k, x, merged_roots(n, pairs, k)[x]),
    decreases k,
{
    if k == 0 {
        lemma_joined_refl(pairs, k, x);
    } else {
        lemma_merged_roots_wf(n, pairs, k - 1);
        let m = merged_roots(n, pairs, k - 1);
        let (a, b) = pairs[k - 1];
        let ra = m[a];
        let rb = m[b];
        let lo = if ra < rb { ra } else { rb };
        lemma_joined_to_root(n, pairs, k - 1, x);
        lemma_joined_more(pairs, k - 1, k, x, m[x]);
        if m[x] == ra || m[x] == rb {
            // x ~ m[x]; a ~ ra; b ~ rb; a ~ b.
            lemma_joined_to_root(n, pairs, k - 1, a);
            lemma_joined_to_root(n, pairs, k - 1, b);
            lemma_joined_more(pairs, k - 1, k, a, ra);
            lemma_joined_more(pairs, k - 1, k, b, rb);
            lemma_joined_pair(pairs, k, k - 1);
            lemma_joined_sym(pairs, k, a, ra);
            lemma_joined_sym(pairs, k, b, rb);
            // ra ~ a ~ b ~ rb
            lemma_joined_trans(pairs, k, ra, a, b);
            lemma_joined_trans(pairs, k, ra, b, rb);
            lemma_joined_sym(pairs, k, ra, rb);
            if m[x] == ra {
                if lo == rb {
                    lemma_joined_trans(pairs, k, x, ra, rb);
                }
            } else {
                if lo == ra {
                    lemma_joined_trans(pairs, k, x, rb, ra);
                }
            }
        }
    }
}

proof fn lemma_walk_same_root(n: nat, pairs: Seq<(int, int)>, k: int, p: Seq<int>, i: int)
    requires
        pairs_in_range(n, pairs),
        0 <= k <= pairs.len(),
        is_walk(pairs, k, p),
        0 <= p[0] < n,
        0 <= i < p.len(),
    ensures
        0 <= p[i] < n,
        merged_roots(n, pairs, k)[p[0]] == merged_roots(n, pairs, k)[p[i]],
    decreases i,
{
    if i > 0 {
        lemma_walk_same_root(n, pairs, k, p, i - 1);
        assert(paired(pairs, k, p[i - 1], p[i]));
        let j = choose|j: int|
            0 <= j < k && ((#[trigger] pairs[j]).0 == p[i - 1] && pairs[j].1 == p[i] || pairs[j].0 == p[i]
                && pairs[j].1 == p[i - 1]);
        lemma_merged_roots_wf(n, pairs, j);
        let mj = merged_roots(n, pairs, j);
        lemma_merge_wf(mj, pairs[j].0, pairs[j].1);
        lemma_together_after(n, pairs, j + 1, k, pairs[j].0, pairs[j].1);
    }
}

/// Two indices joined by the first `k` unions share a root after them.
proof fn lemma_joined_same_root(n: nat, pairs: Seq<(int, int)>, k: int, x: int, y: int)
    requires
        pairs_in_range(n, pairs),
        0 <= k <= pairs.len(),
        0 <= x < n,
        joined(pairs, k, x, y),
    ensures
        0 <= y < n,
        merged_roots(n, pairs, k)[x] == merged_roots(n, pairs, k)[y],
{
    let p = choose|p: Seq<int>| #[trigger] is_walk(pairs, k, p) && p[0] == x && p.last() == y;
    lemma_walk_same_root(n, pairs, k, p, p.len() - 1);
}

/// What a sequence of unions leaves behind: two indices share a root
/// exactly when the unions joined them (a walk along the union pairs leads
/// from one to the other), and the root of every index is the least index
/// of its class. `UnionFind::union` moves the roots as `merge_roots` does
/// and `UnionFind::find` returns the root without changing any, so after
/// unions over these pairs `find(x)` is the least index joined to `x`.
pub proof fn law_root_is_least_of_class(n: nat, pairs: Seq<(int, int)>, k: int, x: int)
    requires
        pairs_in_range(n, pairs),
        0 <= k <= pairs.len(),
        0 <= x < n,
    ensures
        forall|y: int|
            0 <= y < n ==> (merged_roots(n, pairs, k)[x] == #[trigger] merged_roots(n, pairs, k)[y] <==> joined(
                pairs,
                k,
                x,
                y,
            )),
        joined(pairs, k, x, merged_roots(n, pairs, k)[x]),
        forall|y: int| #[trigger] joined(pairs, k, x, y) ==> merged_roots(n, pairs, k)[x] <= y,
{
    let m = merged_roots(n, pairs, k);
    lemma_merged_roots_wf(n, pairs, k);
    lemma_joined_to_root(n, pairs, k, x);
    assert forall|y: int| 0 <= y < n implies (m[x] == #[trigger] m[y] <==> joined(pairs, k, x, y)) by {
        if m[x] == m[y] {
            lemma_joined_to_root(n, pairs, k, y);
            lemma_joined_sym(pairs, k, y, m[y]);
            lemma_joined_trans(pairs, k, x, m[x], y);
        }
        if joined(pairs, k, x, y) {
            lemma_joined_same_root(n, pairs, k, x, y);
        }
    }
    assert forall|y: int| #[trigger] joined(pairs, k, x, y) implies m[x] <= y by {
        lemma_joined_same_root(n, pairs, k, x, y);
    }
}

// ---------------------------------------------------------------------------
// Executable union-find
// ---------------------------------------------------------------------------

/// Integer union-find over `0..n`; the smaller index stays the root.
pub struct UnionFind {
    parent: Vec<usize>,
}

/// Root reached by following parent links from `x`.
pub open spec fn root_in(p: Seq<usize>, x: int) -> int
    decreases x,
{
    if x < 0 || x >= p.len() || p[x] as int >= x {
        x
    } else {
        root_in(p, p[x] as int)
    }
}

/// Parent links only point to smaller indices (or to the index itself).
pub open spec fn parents_wf(p: Seq<usize>) -> bool {
    forall|i: int| 0 <= i < p.len() ==> #[trigger] p[i] <= i
}

/// The root map of a parent vector.
pub open spec fn roots_of(p: Seq<usize>) -> Seq<int> {
    Seq::new(p.len(), |i: int| root_in(p, i))
}

proof fn lemma_root_in_props(p: Seq<usize>, x: int)
    requires
        parents_wf(p),
        0 <= x < p.len(),
    ensures
        0 <= root_in(p, x) <= x,
        p[root_in(p, x)] == root_in(p, x),
    decreases x,
{
    if p[x] as int != x {
        lemma_root_in_props(p, p[x] as int);
    }
}

/// Redirecting `x` to its grandparent changes no root.
proof fn lemma_halve_keeps_roots(p: Seq<usize>, x: int, y: int)
    requires
        parents_wf(p),
        0 <= x < p.len(),
        0 <= y < p.len(),
    ensures
        root_in(p.update(x, p[p[x] as int]), y) == root_in(p, y),
    decreases y,
{
    let q = p.update(x, p[p[x] as int]);
    if y == x {
        if p[x] as int != x {
            assert(q[x] == p[p[x] as int]);
            if q[x] as int != x {
                lemma_halve_keeps_roots(p, x, q[x] as int);
                if p[p[x] as int] != p[x] {
                    assert(root_in(p, p[x] as int) == root_in(p, p[p[x] as int] as int));
                }
            }
        }
    } else if p[y] as int != y {
        assert(q[y] == p[y]);
        lemma_halve_keeps_roots(p, x, p[y] as int);
    }
}

/// Linking root `rb` under root `ra < rb` merges their classes.
proof fn lemma_link_roots(p: Seq<usize>, ra: int, rb: int, y: int)
    requires
        parents_wf(p),
        0 <= ra < rb < p.len(),
        p[ra] == ra,
        p[rb] == rb,
        0 <= y < p.len(),
    ensures
        root_in(p.update(rb, ra as usize), y) == if root_in(p, y) == rb {
            ra
        } else {
            root_in(p, y)
        },
    decreases y,
{
    let q = p.update(rb, ra as usize);
    if y == rb {
        assert(root_in(q, ra) == ra);
    } else if p[y] as int != y {
        lemma_link_roots(p, ra, rb, p[y] as int);
    }
}

impl UnionFind {
    /// The parent links.
    pub closed spec fn links(&self) -> Seq<usize> {
        self.parent@
    }

    /// Well formed: links point to smaller indices or to themselves.
    pub closed spec fn wf(&self) -> bool {
        parents_wf(self.parent@)
    }

    /// The current root of every index.
    pub closed spec fn roots(&self) -> Seq<int> {
        roots_of(self.parent@)
    }

    /// `n` singleton classes.
    pub fn new(n: usize) -> (r: Self)
        ensures
            r.wf(),
            r.roots() == singletons(n as nat),
    {
        let mut parent: Vec<usize> = Vec::new();
        let mut i: usize = 0;
        while i < n
            invariant
                i <= n,
                parent@.len() == i,
                forall|k: int| 0 <= k < i ==> #[trigger] parent@[k] == k,
            decreases n - i,
        {
            parent.push(i);
            i = i + 1;
        }
        let r = UnionFind { parent };
        assert(r.roots() =~= singletons(n as nat));
        r
    }

    /// Number of indices.
    pub fn len(&self) -> (r: usize)
        ensures
            r == self.roots().len(),
    {
        self.parent.len()
    }

    /// Root of `x`'s class (with path halving; classes are unchanged).
    pub fn find(&mut self, x: usize) -> (r: usize)
        requires
            old(self).wf(),
            x < old(self).roots().len(),
        ensures
            final(self).wf(),
            final(self).roots() == old(self).roots(),
            r == old(self).roots()[x as int],
    {
        let ghost p0 = self.parent@;
        let ghost x0 = x as int;
        let mut x = x;
        while self.parent[x] != x
            invariant
                parents_wf(self.parent@),
                self.parent@.len() == p0.len(),
                x < self.parent@.len(),
                0 <= x0 < p0.len(),
                forall|y: int| 0 <= y < p0.len() ==> #[trigger] root_in(self.parent@, y) == root_in(p0, y),
                root_in(self.parent@, x as int) == root_in(p0, x0),
            decreases x,
        {
            let px = self.parent[x];
            let gp = self.parent[px];
            proof {
                let p = self.parent@;
                assert(root_in(p, x as int) == root_in(p, px as int));
                assert(root_in(p, px as int) == root_in(p, gp as int));
                assert forall|y: int| 0 <= y < p0.len() implies #[trigger] root_in(p.update(x as int, gp), y) == root_in(p0, y) by {
                    lemma_halve_keeps_roots(p, x as int, y);
                }
                lemma_halve_keeps_roots(p, x as int, gp as int);
            }
            self.parent.set(x, gp);
            x = gp;
        }
        proof {
            assert(roots_of(self.parent@) =~= roots_of(p0));
        }
        x
    }
}


impl UnionFind {
    /// Merge the classes of `a` and `b`; the smaller root stays the root.
    pub fn union(&mut self, a: usize, b: usize)
        requires
            old(self).wf(),
            a < old(self).roots().len(),
            b < old(self).roots().len(),
        ensures
            final(self).wf(),
            final(self).roots() == merge_roots(
                old(self).roots(),
                old(self).roots()[a as int],
                old(self).roots()[b as int],
            ),
    {
        let ghost m0 = self.roots();
        let ra = self.find(a);
        let rb = self.find(b);
        let ghost p = self.parent@;
        proof {
            lemma_root_in_props(p, a as int);
            lemma_root_in_props(p, b as int);
        }
        if ra != rb {
            if ra < rb {
                proof {
                    assert forall|y: int| 0 <= y < p.len() implies #[trigger] root_in(
                        p.update(rb as int, ra),
                        y,
                    ) == merge_roots(m0, ra as int, rb as int)[y] by {
                        lemma_link_roots(p, ra as int, rb as int, y);
                        lemma_root_in_props(p, y);
                    }
                }
                self.parent.set(rb, ra);
            } else {
                proof {
                    assert forall|y: int| 0 <= y < p.len() implies #[trigger] root_in(
                        p.update(ra as int, rb),
                        y,
                    ) == merge_roots(m0, ra as int, rb as int)[y] by {
                        lemma_link_roots(p, rb as int, ra as int, y);
                        lemma_root_in_props(p, y);
                    }
                }
                self.parent.set(ra, rb);
            }
            proof {
                assert(self.roots() =~= merge_roots(m0, ra as int, rb as int));
            }
        } else {
            proof {
                assert(self.roots() =~= merge_roots(m0, ra as int, rb as int));
            }
        }
    }
}

// ---------------------------------------------------------------------------
// Grouping indices by class
// ---------------------------------------------------------------------------

/// Included indices `j < k` that are their own root, ascending.
pub open spec fn kept_roots(rv: Seq<usize>, inc: Seq<bool>, k: int) -> Seq<usize>
    decreases k,
{
    if k <= 0 {
        Seq::empty()
    } else {
        let prev = kept_roots(rv, inc, k - 1);
        if inc[k - 1] && rv[k - 1] as int == k - 1 {
            prev.push((k - 1) as usize)
        } else {
            prev
        }
    }
}

/// Included indices `j < k` whose root is `r`, ascending.
pub open spec fn class_members(rv: Seq<usize>, inc: Seq<bool>, r: usize, k: int) -> Seq<usize>
    decreases k,
{
    if k <= 0 {
        Seq::empty()
    } else {
        let prev = class_members(rv, inc, r, k - 1);
        if inc[k - 1] && rv[k - 1] == r {
            prev.push((k - 1) as usize)
        } else {
            prev
        }
    }
}

/// `rv` is a root vector (each root no larger than its index, roots are
/// their own root) and an included index always has an included root.
pub open spec fn roots_closed(rv: Seq<usize>, inc: Seq<bool>) -> bool {
    &&& rv.len() == inc.len()
    &&& forall|j: int|
        0 <= j < rv.len() ==> #[trigger] rv[j] <= j && rv[rv[j] as int] == rv[j] && (inc[j]
            ==> inc[rv[j] as int])
}

pub proof fn lemma_kept_roots_shape(rv: Seq<usize>, inc: Seq<bool>, k: int)
    requires
        0 <= k <= rv.len(),
        rv.len() == inc.len(),
    ensures
        forall|g: int|
            0 <= g < kept_roots(rv, inc, k).len() ==> #[trigger] kept_roots(rv, inc, k)[g] < k
                && inc[kept_roots(rv, inc, k)[g] as int] && rv[kept_roots(rv, inc, k)[g] as int]
                == kept_roots(rv, inc, k)[g],
        forall|g: int, h: int|
            0 <= g < h < kept_roots(rv, inc, k).len() ==> #[trigger] kept_roots(rv, inc, k)[g]
                < #[trigger] kept_roots(rv, inc, k)[h],
    decreases k,
{
    if k > 0 {
        lemma_kept_roots_shape(rv, inc, k - 1);
        let prev = kept_roots(rv, inc, k - 1);
        if inc[k - 1] && rv[k - 1] as int == k - 1 {
            let cur = prev.push((k - 1) as usize);
            assert(kept_roots(rv, inc, k) == cur);
            assert forall|g: int| 0 <= g < cur.len() implies #[trigger] cur[g] < k && inc[cur[g] as int]
                && rv[cur[g] as int] == cur[g] by {
                if g < prev.len() {
                    assert(cur[g] == prev[g]);
                }
            }
            assert forall|g: int, h: int| 0 <= g < h < cur.len() implies #[trigger] cur[g]
                < #[trigger] cur[h] by {
                assert(cur[g] == prev[g]);
                if h < prev.len() {
                    assert(cur[h] == prev[h]);
                }
            }
        } else {
            assert(kept_roots(rv, inc, k) == prev);
        }
    }
}

/// Position of an included root among the kept roots.
pub proof fn kept_root_index(rv: Seq<usize>, inc: Seq<bool>, k: int, r: int) -> (g: int)
    requires
        0 <= r < k <= rv.len(),
        rv.len() == inc.len(),
        inc[r],
        rv[r] as int == r,
    ensures
        0 <= g < kept_roots(rv, inc, k).len(),
        kept_roots(rv, inc, k)[g] as int == r,
    decreases k,
{
    let prev = kept_roots(rv, inc, k - 1);
    if r == k - 1 {
        prev.len() as int
    } else {
        let g = kept_root_index(rv, inc, k - 1, r);
        g
    }
}

proof fn lemma_class_members_empty(rv: Seq<usize>, inc: Seq<bool>, r: usize, k: int)
    requires
        0 <= k <= rv.len(),
        forall|j: int| 0 <= j < rv.len() ==> #[trigger] rv[j] <= j,
        k <= r,
    ensures
        class_members(rv, inc, r, k).len() == 0,
    decreases k,
{
    if k > 0 {
        lemma_class_members_empty(rv, inc, r, k - 1);
    }
}

/// The included indices grouped by root: one group per included root, in
/// ascending order of root, each holding its included members ascending.
pub fn group_by_root(rv: &Vec<usize>, inc: &Vec<bool>) -> (res: (Vec<usize>, Vec<Vec<usize>>))
    requires
        roots_closed(rv@, inc@),
    ensures
        res.0@ == kept_roots(rv@, inc@, rv.len() as int),
        res.1.len() == kept_roots(rv@, inc@, rv.len() as int).len(),
        forall|g: int|
            0 <= g < res.1.len() ==> #[trigger] res.1[g]@ == class_members(
                rv@,
                inc@,
                kept_roots(rv@, inc@, rv.len() as int)[g],
                rv.len() as int,
            ),
{
    let n = rv.len();
    let mut groups: Vec<Vec<usize>> = Vec::new();
    let mut roots: Vec<usize> = Vec::new();
    let mut pos: Vec<usize> = Vec::new();
    let mut z: usize = 0;
    while z < n
        invariant
            z <= n,
            pos.len() == z,
        decreases n - z,
    {
        pos.push(0);
        z = z + 1;
    }
    let mut j: usize = 0;
    while j < n
        invariant
            n == rv.len(),
            roots_closed(rv@, inc@),
            j <= n,
            pos.len() == n,
            groups.len() == kept_roots(rv@, inc@, j as int).len(),
            roots@ == kept_roots(rv@, inc@, j as int),
            forall|g: int|
                0 <= g < groups.len() ==> #[trigger] groups[g]@ == class_members(
                    rv@,
                    inc@,
                    kept_roots(rv@, inc@, j as int)[g],
                    j as int,
                ),
            forall|g: int|
                0 <= g < groups.len() ==> pos[#[trigger] kept_roots(rv@, inc@, j as int)[g] as int]
                    == g,
        decreases n - j,
    {
        let ghost kr = kept_roots(rv@, inc@, j as int);
        proof {
            lemma_kept_roots_shape(rv@, inc@, j as int);
        }
        if inc[j] {
            let r = rv[j];
            if r == j {
                proof {
                    lemma_class_members_empty(rv@, inc@, r, j as int);
                    assert forall|g: int| 0 <= g < kr.len() implies #[trigger] class_members(
                        rv@,
                        inc@,
                        kr[g],
                        j as int + 1,
                    ) == class_members(rv@, inc@, kr[g], j as int) by {
                        assert(kr[g] < j);
                    }
                }
                pos.set(j, groups.len());
                let mut single: Vec<usize> = Vec::new();
                single.push(j);
                groups.push(single);
                roots.push(j);
                proof {
                    let kr2 = kept_roots(rv@, inc@, j as int + 1);
                    assert(kr2 == kr.push(j));
                    assert(groups[kr.len() as int]@ =~= class_members(rv@, inc@, j, j as int + 1));
                    assert forall|g: int| 0 <= g < groups.len() implies pos[#[trigger] kr2[g] as int]
                        == g by {
                        if g < kr.len() {
                            assert(kr[g] < j);
                        }
                    }
                }
            } else {
                proof {
                    assert(rv@[j as int] <= j);
                    assert(inc@[r as int]);
                    assert(rv@[r as int] == r);
                }
                let ghost gw = kept_root_index(rv@, inc@, j as int, r as int);
                let g = pos[r];
                proof {
                    assert(pos[kr[gw] as int] == gw);
                    assert(g == gw);
                }
                groups[g].push(j);
                proof {
                    assert(kept_roots(rv@, inc@, j as int + 1) == kr);
                    assert forall|h: int| 0 <= h < groups.len() implies #[trigger] groups[h]@
                        == class_members(rv@, inc@, kr[h], j as int + 1) by {
                        if h != g {
                            if h < g {
                                assert(kr[h] < kr[g as int]);
                            } else {
                                assert(kr[g as int] < kr[h]);
                            }
                        }
                    }
                }
            }
        } else {
            proof {
                assert(kept_roots(rv@, inc@, j as int + 1) == kr);
                assert forall|g: int| 0 <= g < groups.len() implies #[trigger] groups[g]@
                    == class_members(rv@, inc@, kr[g], j as int + 1) by {
                    assert(class_members(rv@, inc@, kr[g], j as int + 1) == class_members(
                        rv@,
                        inc@,
                        kr[g],
                        j as int,
                    ));
                }
            }
        }
        j = j + 1;
    }
    (roots, groups)
}

} // verus!
