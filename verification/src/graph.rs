//! Graph algorithms over nodes numbered `0..n`: reachability along
//! successor lists, and Kahn's topological sort.
//!
//! The sort is deterministic by construction: among the nodes that are
//! ready (no incoming edge from an unemitted node) the smallest index is
//! always emitted first, and [`spec_kahn`] pins the whole output.

use vstd::prelude::*;

verus! {

/// Well-formed adjacency: every listed successor is a node.
pub open spec fn succ_wf(succ: Seq<Seq<usize>>) -> bool {
    forall|a: int, x: int|
        0 <= a < succ.len() && 0 <= x < succ[a].len() ==> (#[trigger] succ[a][x]) < succ.len()
}

/// The adjacency view of an edge vector.
pub open spec fn adj_view(succ: Seq<Vec<usize>>) -> Seq<Seq<usize>> {
    Seq::new(succ.len(), |i: int| succ[i]@)
}

/// `b` lies within `k` successor steps of `a`.
pub open spec fn reaches_k(succ: Seq<Seq<usize>>, a: usize, b: usize, k: nat) -> bool
    decreases k,
{
    a == b || (k > 0 && exists|m: usize|
        #[trigger] succ[a as int].contains(m) && reaches_k(succ, m, b, (k - 1) as nat))
}

/// `b` is reachable from `a` in zero or more successor steps.
pub open spec fn reaches(succ: Seq<Seq<usize>>, a: usize, b: usize) -> bool {
    exists|k: nat| reaches_k(succ, a, b, k)
}

/// `b` is reachable from some successor of `a` (one or more steps).
pub open spec fn reaches_plus(succ: Seq<Seq<usize>>, a: usize, b: usize) -> bool {
    exists|m: usize| #[trigger] succ[a as int].contains(m) && reaches(succ, m, b)
}

pub proof fn lemma_reaches_refl(succ: Seq<Seq<usize>>, a: usize)
    ensures
        reaches(succ, a, a),
{
    assert(reaches_k(succ, a, a, 0));
}

pub proof fn lemma_reaches_k_step(succ: Seq<Seq<usize>>, a: usize, b: usize, c: usize, k: nat)
    requires
        reaches_k(succ, a, b, k),
        succ[b as int].contains(c),
    ensures
        reaches_k(succ, a, c, k + 1),
    decreases k,
{
    if a == b {
        assert(reaches_k(succ, c, c, k));
        assert(succ[a as int].contains(c) && reaches_k(succ, c, c, k));
    } else {
        let m = choose|m: usize|
            #[trigger] succ[a as int].contains(m) && reaches_k(succ, m, b, (k - 1) as nat);
        lemma_reaches_k_step(succ, m, b, c, (k - 1) as nat);
        assert(succ[a as int].contains(m) && reaches_k(succ, m, c, k));
    }
}

pub proof fn lemma_reaches_step(succ: Seq<Seq<usize>>, a: usize, b: usize, c: usize)
    requires
        reaches(succ, a, b),
        succ[b as int].contains(c),
    ensures
        reaches(succ, a, c),
{
    let k = choose|k: nat| reaches_k(succ, a, b, k);
    lemma_reaches_k_step(succ, a, b, c, k);
}

/// How many of the first `upto` table entries are false.
pub open spec fn count_false(vis: Seq<bool>, upto: int) -> int
    decreases upto,
{
    if upto <= 0 {
        0
    } else {
        count_false(vis, upto - 1) + if upto - 1 < vis.len() && !vis[upto - 1] {
            1int
        } else {
            0int
        }
    }
}

pub proof fn lemma_count_false_bounds(vis: Seq<bool>, upto: int)
    ensures
        0 <= count_false(vis, upto) <= if upto >= 0 {
            upto
        } else {
            0int
        },
    decreases upto,
{
    if upto > 0 {
        lemma_count_false_bounds(vis, upto - 1);
    }
}

/// Marking a false entry true lowers the count of false entries by one.
pub proof fn lemma_count_false_set(vis: Seq<bool>, u: int, upto: int)
    requires
        0 <= u < vis.len(),
        !vis[u],
    ensures
        count_false(vis.update(u, true), upto) == count_false(vis, upto) - if u < upto {
            1int
        } else {
            0int
        },
    decreases upto,
{
    if upto > 0 {
        lemma_count_false_set(vis, u, upto - 1);
    }
}

/// Pointwise-monotone marking cannot increase the count of false entries.
pub proof fn lemma_count_false_le(vis0: Seq<bool>, vis1: Seq<bool>, upto: int)
    requires
        vis0.len() == vis1.len(),
        forall|u: int| 0 <= u < vis0.len() && vis0[u] ==> vis1[u],
    ensures
        count_false(vis1, upto) <= count_false(vis0, upto),
    decreases upto,
{
    if upto > 0 {
        lemma_count_false_le(vis0, vis1, upto - 1);
    }
}

/// A full table has no false entry.
pub proof fn lemma_count_false_none(vis: Seq<bool>, upto: int)
    requires
        count_false(vis, upto) == 0,
        upto <= vis.len(),
    ensures
        forall|j: int| 0 <= j < upto ==> #[trigger] vis[j],
    decreases upto,
{
    if upto > 0 {
        lemma_count_false_bounds(vis, upto - 1);
        lemma_count_false_none(vis, upto - 1);
    }
}

/// A table where every entry up to `upto` is true counts no false entry.
pub proof fn lemma_count_false_zero(vis: Seq<bool>, upto: int)
    requires
        forall|j: int| 0 <= j < upto ==> #[trigger] vis[j],
    ensures
        count_false(vis, upto) == 0,
    decreases upto,
{
    if upto > 0 {
        lemma_count_false_zero(vis, upto - 1);
    }
}

pub proof fn lemma_push_contains(s: Seq<usize>, v: usize, a: usize)
    ensures
        s.push(v).contains(a) <==> (s.contains(a) || a == v),
{
    if s.push(v).contains(a) {
        let p = choose|p: int| 0 <= p < s.push(v).len() && s.push(v)[p] == a;
        if p < s.len() {
            assert(s[p] == a);
        }
    }
    if s.contains(a) {
        let p = choose|p: int| 0 <= p < s.len() && s[p] == a;
        assert(s.push(v)[p] == a);
    }
    if a == v {
        assert(s.push(v)[s.len() as int] == a);
    }
}

/// A visited table that contains the start and is closed under successor
/// steps contains everything reachable.
proof fn lemma_closed_covers(succ: Seq<Seq<usize>>, vis: Seq<bool>, a: usize, b: usize, k: nat)
    requires
        succ_wf(succ),
        vis.len() == succ.len(),
        a < succ.len(),
        vis[a as int],
        reaches_k(succ, a, b, k),
        forall|v: usize, x: int|
            v < succ.len() && vis[v as int] && 0 <= x < succ[v as int].len() ==> vis[#[trigger] succ[v as int][x] as int],
    ensures
        b < succ.len() && vis[b as int],
    decreases k,
{
    if a != b {
        let m = choose|m: usize|
            #[trigger] succ[a as int].contains(m) && reaches_k(succ, m, b, (k - 1) as nat);
        let x = choose|x: int| 0 <= x < succ[a as int].len() && succ[a as int][x] == m;
        assert(vis[m as int]);
        lemma_closed_covers(succ, vis, m, b, (k - 1) as nat);
    }
}

/// Which nodes can be reached from `start`, as a table.
pub fn reachable_from(succ: &Vec<Vec<usize>>, start: usize) -> (r: Vec<bool>)
    requires
        succ_wf(adj_view(succ@)),
        start < succ@.len(),
    ensures
        r@.len() == succ@.len(),
        forall|b: usize|
            b < succ@.len() ==> ((#[trigger] r@[b as int]) <==> reaches(adj_view(succ@), start, b)),
{
    let ghost g = adj_view(succ@);
    let n = succ.len();
    let mut vis: Vec<bool> = Vec::new();
    let mut t: usize = 0;
    while t < n
        invariant
            t <= n,
            vis@.len() == t,
            forall|x: int| 0 <= x < t ==> !(#[trigger] vis@[x]),
        decreases n - t,
    {
        vis.push(false);
        t += 1;
    }
    let mut stack: Vec<usize> = Vec::new();
    proof {
        lemma_count_false_set(vis@, start as int, n as int);
        lemma_reaches_refl(g, start);
    }
    vis.set(start, true);
    stack.push(start);
    proof {
        assert(stack@[0] == start);
        assert(stack@.contains(start));
        assert(forall|v: usize| v < n && v != start ==> !vis@[v as int]);
    }
    while stack.len() > 0
        invariant
            g == adj_view(succ@),
            succ_wf(g),
            g.len() == succ@.len(),
            n == succ@.len(),
            start < n,
            vis@.len() == n,
            vis@[start as int],
            stack@.no_duplicates(),
            forall|p: int| 0 <= p < stack@.len() ==> (#[trigger] stack@[p]) < n,
            forall|p: int| 0 <= p < stack@.len() ==> vis@[(#[trigger] stack@[p]) as int],
            forall|v: usize| v < n && vis@[v as int] ==> reaches(g, start, v),
            forall|v: usize, x: int|
                v < n && vis@[v as int] && !stack@.contains(v) && 0 <= x < g[v as int].len()
                    ==> vis@[#[trigger] g[v as int][x] as int],
        decreases count_false(vis@, n as int) + stack@.len(),
    {
        let ghost stack0 = stack@;
        let ghost vis0 = vis@;
        let v = stack[stack.len() - 1];
        stack.pop();
        proof {
            assert(stack@ =~= stack0.drop_last());
            assert forall|u: usize| #[trigger] stack0.contains(u) && u != v implies
                stack@.contains(u) by {
                let p = choose|p: int| 0 <= p < stack0.len() && stack0[p] == u;
                assert(stack0[stack0.len() - 1] == v);
                assert(p < stack0.len() - 1);
                assert(stack@[p] == u);
            }
            if stack@.contains(v) {
                let p = choose|p: int| 0 <= p < stack@.len() && stack@[p] == v;
                assert(stack0[p] == v && stack0[stack0.len() - 1] == v);
                assert(false);
            }
        }
        let ghost stack1 = stack@;
        let mut x: usize = 0;
        let slen = succ[v].len();
        while x < slen
            invariant
                g == adj_view(succ@),
                succ_wf(g),
                g.len() == succ@.len(),
                n == succ@.len(),
                start < n,
                v < n,
                slen == g[v as int].len(),
                x <= slen,
                vis@.len() == n,
                vis@[start as int],
                vis@[v as int],
                stack@.no_duplicates(),
                !stack@.contains(v),
                forall|p: int| 0 <= p < stack@.len() ==> (#[trigger] stack@[p]) < n,
                forall|p: int| 0 <= p < stack@.len() ==> vis@[(#[trigger] stack@[p]) as int],
                forall|u: usize| u < n && vis@[u as int] ==> reaches(g, start, u),
                forall|u: usize, y: int|
                    u < n && u != v && vis@[u as int] && !stack@.contains(u) && 0 <= y < g[u as int].len()
                        ==> vis@[#[trigger] g[u as int][y] as int],
                forall|y: int| 0 <= y < x ==> vis@[#[trigger] g[v as int][y] as int],
                forall|u: int| 0 <= u < n && vis0[u] ==> vis@[u],
                count_false(vis@, n as int) + stack@.len() <= count_false(vis0, n as int)
                    + stack1.len(),
            decreases slen - x,
        {
            let m = succ[v][x];
            proof {
                assert(g[v as int][x as int] == m);
                assert(g[v as int].contains(m));
            }
            if !vis[m] {
                let ghost stackb = stack@;
                proof {
                    assert(reaches(g, start, v));
                    lemma_reaches_step(g, start, v, m);
                    lemma_count_false_set(vis@, m as int, n as int);
                    assert(!stackb.contains(m));
                    assert(m != v);
                }
                vis.set(m, true);
                stack.push(m);
                proof {
                    assert(forall|p: int|
                        0 <= p < stackb.len() ==> stack@[p] == #[trigger] stackb[p]);
                    assert(stack@[stackb.len() as int] == m);
                    assert(stack@.no_duplicates());
                }
            }
            x += 1;
        }
        proof {
            lemma_count_false_bounds(vis@, n as int);
            lemma_count_false_bounds(vis0, n as int);
            assert(count_false(vis@, n as int) + stack@.len() < count_false(vis0, n as int)
                + stack0.len());
        }
    }
    proof {
        assert forall|b: usize| b < n && reaches(g, start, b) implies vis@[b as int] by {
            let k = choose|k: nat| reaches_k(g, start, b, k);
            lemma_closed_covers(g, vis@, start, b, k);
        }
    }
    vis
}

/// The table of `reaches_plus`: entry `[a][b]` says whether `b` is
/// reachable from `a` in one or more steps.
pub fn reach_plus_table(succ: &Vec<Vec<usize>>) -> (r: Vec<Vec<bool>>)
    requires
        succ_wf(adj_view(succ@)),
    ensures
        r@.len() == succ@.len(),
        forall|a: int| 0 <= a < r@.len() ==> (#[trigger] r@[a])@.len() == succ@.len(),
        forall|a: usize, b: usize|
            a < succ@.len() && b < succ@.len() ==> ((#[trigger] r@[a as int]@[b as int])
                <==> reaches_plus(adj_view(succ@), a, b)),
{
    let ghost g = adj_view(succ@);
    let n = succ.len();
    let mut r: Vec<Vec<bool>> = Vec::new();
    let mut v: usize = 0;
    while v < n
        invariant
            v <= n,
            n == succ@.len(),
            g == adj_view(succ@),
            succ_wf(g),
            r@.len() == v,
            forall|a: int| 0 <= a < v ==> (#[trigger] r@[a])@.len() == n,
            forall|a: usize, b: usize|
                a < v && b < n ==> ((#[trigger] r@[a as int]@[b as int]) <==> reaches_plus(
                    g,
                    a,
                    b,
                )),
        decreases n - v,
    {
        let mut row: Vec<bool> = Vec::new();
        let mut t: usize = 0;
        while t < n
            invariant
                t <= n,
                row@.len() == t,
                forall|b: int| 0 <= b < t ==> !(#[trigger] row@[b]),
            decreases n - t,
        {
            row.push(false);
            t += 1;
        }
        let slen = succ[v].len();
        let mut x: usize = 0;
        while x < slen
            invariant
                x <= slen,
                v < n,
                n == succ@.len(),
                g == adj_view(succ@),
                succ_wf(g),
                slen == g[v as int].len(),
                row@.len() == n,
                forall|b: usize|
                    b < n ==> ((#[trigger] row@[b as int]) <==> exists|x2: int|
                        0 <= x2 < x && reaches(g, g[v as int][x2], b)),
            decreases slen - x,
        {
            let m = succ[v][x];
            proof {
                assert(g[v as int][x as int] == m);
            }
            let rm = reachable_from(succ, m);
            let ghost row0 = row@;
            let mut b: usize = 0;
            while b < n
                invariant
                    b <= n,
                    v < n,
                    m < n,
                    x < slen,
                    n == succ@.len(),
                    g == adj_view(succ@),
                    slen == g[v as int].len(),
                    m == g[v as int][x as int],
                    rm@.len() == n,
                    forall|c: usize|
                        c < n ==> ((#[trigger] rm@[c as int]) <==> reaches(g, m, c)),
                    row@.len() == n,
                    row0.len() == n,
                    forall|c: int| b <= c < n ==> (#[trigger] row@[c]) == row0[c],
                    forall|c: usize|
                        c < b ==> ((#[trigger] row@[c as int]) <==> (row0[c as int] || reaches(
                            g,
                            m,
                            c,
                        ))),
                decreases n - b,
            {
                if rm[b] && !row[b] {
                    row.set(b, true);
                }
                b += 1;
            }
            proof {
                assert forall|c: usize| c < n implies ((#[trigger] row@[c as int])
                    <==> exists|x2: int| 0 <= x2 < x + 1 && reaches(g, g[v as int][x2], c)) by {
                    if row@[c as int] {
                        if row0[c as int] {
                            let x2 = choose|x2: int|
                                0 <= x2 < x && reaches(g, #[trigger] g[v as int][x2], c);
                            assert(reaches(g, g[v as int][x2], c));
                        } else {
                            assert(reaches(g, g[v as int][x as int], c));
                        }
                    } else {
                        if exists|x2: int| 0 <= x2 < x + 1 && reaches(g, #[trigger] g[v as int][x2], c) {
                            let x2 = choose|x2: int|
                                0 <= x2 < x + 1 && reaches(g, #[trigger] g[v as int][x2], c);
                            if x2 < x {
                                assert(row0[c as int]);
                            }
                            assert(false);
                        }
                    }
                }
            }
            x += 1;
        }
        proof {
            assert forall|b: usize| b < n implies ((#[trigger] row@[b as int]) <==> reaches_plus(
                g,
                v,
                b,
            )) by {
                if row@[b as int] {
                    let x2 = choose|x2: int|
                        0 <= x2 < slen && reaches(g, #[trigger] g[v as int][x2], b);
                    assert(g[v as int].contains(g[v as int][x2]));
                }
                if reaches_plus(g, v, b) {
                    let m2 = choose|m2: usize|
                        #[trigger] g[v as int].contains(m2) && reaches(g, m2, b);
                    let x2 = choose|x2: int| 0 <= x2 < g[v as int].len() && g[v as int][x2] == m2;
                    assert(reaches(g, g[v as int][x2], b));
                }
            }
        }
        r.push(row);
        v += 1;
    }
    r
}

// ---------------------------------------------------------------------------
// Kahn's topological sort.
// ---------------------------------------------------------------------------

/// Well-formed edge list: both ends of every edge are nodes. An edge
/// `(u, v)` means `u` must be emitted before `v`.
pub open spec fn edges_wf(n: int, edges: Seq<(usize, usize)>) -> bool {
    forall|k: int| 0 <= k < edges.len() ==> (#[trigger] edges[k]).0 < n && edges[k].1 < n
}

/// `v` may be emitted next: it has not been emitted, and every edge into
/// it comes from an emitted node.
pub open spec fn ready(edges: Seq<(usize, usize)>, emitted: Seq<usize>, v: usize) -> bool {
    !emitted.contains(v) && forall|k: int|
        0 <= k < edges.len() && (#[trigger] edges[k]).1 == v ==> emitted.contains(edges[k].0)
}

/// The least ready node at or after `i`, if any.
pub open spec fn first_ready(
    n: int,
    edges: Seq<(usize, usize)>,
    emitted: Seq<usize>,
    i: int,
) -> Option<usize>
    decreases n - i when i <= n
{
    if i >= n {
        None
    } else if ready(edges, emitted, i as usize) {
        Some(i as usize)
    } else {
        first_ready(n, edges, emitted, i + 1)
    }
}

pub proof fn lemma_first_ready(n: int, edges: Seq<(usize, usize)>, emitted: Seq<usize>, i: int)
    requires
        0 <= i <= n <= usize::MAX,
    ensures
        match first_ready(n, edges, emitted, i) {
            None => forall|v: usize| i <= v < n ==> !(#[trigger] ready(edges, emitted, v)),
            Some(v) => i <= v < n && ready(edges, emitted, v),
        },
    decreases n - i,
{
    if i < n && !ready(edges, emitted, i as usize) {
        lemma_first_ready(n, edges, emitted, i + 1);
    }
}

/// Kahn's algorithm, abstractly: keep emitting the least ready node.
pub open spec fn kahn_rec(
    n: int,
    edges: Seq<(usize, usize)>,
    emitted: Seq<usize>,
    fuel: nat,
) -> Seq<usize>
    decreases fuel,
{
    if fuel == 0 {
        emitted
    } else {
        match first_ready(n, edges, emitted, 0) {
            None => emitted,
            Some(v) => kahn_rec(n, edges, emitted.push(v), (fuel - 1) as nat),
        }
    }
}

/// The emission order Kahn's algorithm produces on `n` nodes; shorter
/// than `n` exactly when the edge set has a cycle.
pub open spec fn spec_kahn(n: int, edges: Seq<(usize, usize)>) -> Seq<usize> {
    kahn_rec(n, edges, Seq::empty(), n as nat)
}

/// The nodes of `0..n` missing from `ord`, in ascending order.
pub open spec fn remaining_nodes(n: int, ord: Seq<usize>, i: int) -> Seq<usize>
    decreases n - i when i <= n
{
    if i >= n {
        Seq::empty()
    } else if ord.contains(i as usize) {
        remaining_nodes(n, ord, i + 1)
    } else {
        seq![i as usize] + remaining_nodes(n, ord, i + 1)
    }
}

/// How many of the first `upto` edges point at `v` from an unemitted node.
pub open spec fn indeg(
    edges: Seq<(usize, usize)>,
    emitted: Seq<usize>,
    v: usize,
    upto: int,
) -> int
    decreases upto,
{
    if upto <= 0 {
        0
    } else {
        indeg(edges, emitted, v, upto - 1) + if 0 <= upto - 1 < edges.len() && edges[upto - 1].1
            == v && !emitted.contains(edges[upto - 1].0) {
            1int
        } else {
            0int
        }
    }
}

pub proof fn lemma_indeg_bounds(edges: Seq<(usize, usize)>, emitted: Seq<usize>, v: usize, upto: int)
    ensures
        0 <= indeg(edges, emitted, v, upto) <= if upto >= 0 {
            upto
        } else {
            0int
        },
    decreases upto,
{
    if upto > 0 {
        lemma_indeg_bounds(edges, emitted, v, upto - 1);
    }
}

pub proof fn lemma_indeg_mono(edges: Seq<(usize, usize)>, emitted: Seq<usize>, v: usize, a: int, b: int)
    requires
        a <= b,
    ensures
        indeg(edges, emitted, v, a) <= indeg(edges, emitted, v, b),
    decreases b - a,
{
    if a < b {
        lemma_indeg_mono(edges, emitted, v, a, b - 1);
    }
}

pub proof fn lemma_indeg_zero(edges: Seq<(usize, usize)>, emitted: Seq<usize>, v: usize, upto: int)
    requires
        upto <= edges.len(),
    ensures
        (indeg(edges, emitted, v, upto) == 0) <==> (forall|k: int|
            0 <= k < upto && (#[trigger] edges[k]).1 == v ==> emitted.contains(edges[k].0)),
    decreases upto,
{
    if upto > 0 {
        lemma_indeg_bounds(edges, emitted, v, upto - 1);
        lemma_indeg_zero(edges, emitted, v, upto - 1);
    }
}

/// Kahn's topological sort over nodes `0..n`, deterministic by least
/// index. On success the order is a permutation of the nodes in which
/// the source of every edge comes strictly before its target. On failure
/// the remaining (cyclically constrained) nodes are reported in
/// ascending order, each kept waiting by an edge from another remaining
/// node.
#[verifier::rlimit(100)]
pub fn kahn_sort(n: usize, edges: &Vec<(usize, usize)>) -> (r: Result<Vec<usize>, Vec<usize>>)
    requires
        edges_wf(n as int, edges@),
    ensures
        ({
            let ord = spec_kahn(n as int, edges@);
            match r {
                Ok(o) => o@ == ord && o@.len() == n && o@.no_duplicates() && respects_order(
                    edges@,
                    o@,
                ) && (forall|x: usize|
                    x < n ==> ord.contains(x)) && (forall|q: int|
                    0 <= q < ord.len() ==> (#[trigger] ord[q]) < n) && (forall|k: int, q: int|
                    0 <= k < edges@.len() && 0 <= q < ord.len() && (#[trigger] edges@[k]).1
                        == (#[trigger] ord[q]) ==> exists|p: int|
                        0 <= p < q && ord[p] == edges@[k].0),
                Err(rem) => ord.len() < n && rem@ == remaining_nodes(n as int, ord, 0)
                    && rem@.len() > 0 && blocked_set(edges@, rem@) && (forall|x: usize|
                    #[trigger] rem@.contains(x) ==> x < n && !ord.contains(x)) && (forall|x: usize|
                    x < n && !ord.contains(x) ==> rem@.contains(x)) && (forall|x: usize|
                    #[trigger] rem@.contains(x) ==> exists|k: int|
                        0 <= k < edges@.len() && edges@[k].1 == x && rem@.contains(edges@[k].0)),
            }
        }),
{
    let ghost es = edges@;
    let m = edges.len();
    let mut in_deg: Vec<usize> = Vec::new();
    let mut t: usize = 0;
    while t < n
        invariant
            t <= n,
            in_deg@.len() == t,
            forall|x: int| 0 <= x < t ==> (#[trigger] in_deg@[x]) == 0,
        decreases n - t,
    {
        in_deg.push(0);
        t += 1;
    }
    proof {
        assert forall|v: usize| v < n implies in_deg@[v as int] == indeg(es, Seq::<usize>::empty(), v, 0)
        by {}
    }
    let mut k: usize = 0;
    while k < m
        invariant
            k <= m,
            m == es.len(),
            es == edges@,
            edges_wf(n as int, es),
            in_deg@.len() == n,
            forall|v: usize| v < n ==> (#[trigger] in_deg@[v as int]) == indeg(
                es,
                Seq::<usize>::empty(),
                v,
                k as int,
            ),
        decreases m - k,
    {
        let e = edges[k];
        let b = e.1;
        proof {
            lemma_indeg_bounds(es, Seq::<usize>::empty(), b, k as int);
        }
        let d = in_deg[b];
        in_deg.set(b, d + 1);
        k += 1;
    }
    let mut flags: Vec<bool> = Vec::new();
    let mut t2: usize = 0;
    while t2 < n
        invariant
            t2 <= n,
            flags@.len() == t2,
            forall|x: int| 0 <= x < t2 ==> !(#[trigger] flags@[x]),
        decreases n - t2,
    {
        flags.push(false);
        t2 += 1;
    }
    let mut order: Vec<usize> = Vec::new();
    proof {
        lemma_count_false_zero(Seq::new(n as nat, |i: int| true), n as int);
        assert(count_false(flags@, n as int) == n as int) by {
            lemma_count_false_all(flags@, n as int);
        }
    }
    while order.len() < n
        invariant
            es == edges@,
            m == es.len(),
            edges_wf(n as int, es),
            in_deg@.len() == n,
            flags@.len() == n,
            order@.len() <= n,
            forall|q: int| 0 <= q < order@.len() ==> (#[trigger] order@[q]) < n,
            order@.no_duplicates(),
            forall|x: usize| x < n ==> ((#[trigger] flags@[x as int]) <==> order@.contains(x)),
            order@.len() + count_false(flags@, n as int) == n,
            forall|v: usize| v < n ==> (#[trigger] in_deg@[v as int]) == indeg(
                es,
                order@,
                v,
                m as int,
            ),
            kahn_rec(n as int, es, Seq::<usize>::empty(), n as nat) == kahn_rec(
                n as int,
                es,
                order@,
                (n - order@.len()) as nat,
            ),
            forall|k2: int, q: int|
                0 <= k2 < es.len() && 0 <= q < order@.len() && (#[trigger] es[k2]).1
                    == (#[trigger] order@[q]) ==> exists|p: int| 0 <= p < q && order@[p] == es[k2].0,
        decreases n - order@.len(),
    {
        // find the least ready node
        let mut j: usize = 0;
        while j < n && (flags[j] || in_deg[j] > 0)
            invariant
                j <= n,
                n == in_deg@.len(),
                n == flags@.len(),
                m == es.len(),
                es == edges@,
                forall|x: usize| x < n ==> ((#[trigger] flags@[x as int]) <==> order@.contains(x)),
                forall|v: usize| v < n ==> (#[trigger] in_deg@[v as int]) == indeg(
                    es,
                    order@,
                    v,
                    m as int,
                ),
                first_ready(n as int, es, order@, 0) == first_ready(n as int, es, order@, j as int),
            decreases n - j,
        {
            proof {
                lemma_indeg_zero(es, order@, j, m as int);
                assert(!ready(es, order@, j));
                assert(first_ready(n as int, es, order@, j as int) == first_ready(
                    n as int,
                    es,
                    order@,
                    j as int + 1,
                ));
            }
            j += 1;
        }
        if j == n {
            // nothing is ready: the unemitted nodes restrain one another
            proof {
                assert(first_ready(n as int, es, order@, 0) is None);
            }
            let mut rem: Vec<usize> = Vec::new();
            let mut x: usize = 0;
            while x < n
                invariant
                    x <= n,
                    n == flags@.len(),
                    forall|u: usize|
                        u < n ==> ((#[trigger] flags@[u as int]) <==> order@.contains(u)),
                    remaining_nodes(n as int, order@, 0) == rem@ + remaining_nodes(
                        n as int,
                        order@,
                        x as int,
                    ),
                    forall|p: int|
                        0 <= p < rem@.len() ==> (#[trigger] rem@[p]) < n && !order@.contains(
                            rem@[p],
                        ),
                    forall|u: usize| u < x && !order@.contains(u) ==> rem@.contains(u),
                decreases n - x,
            {
                let ghost rem0 = rem@;
                if !flags[x] {
                    rem.push(x);
                    proof {
                        assert(rem@ =~= rem0.push(x));
                        assert((rem0 + seq![x]) + remaining_nodes(n as int, order@, x as int + 1)
                            =~= rem0 + (seq![x] + remaining_nodes(n as int, order@, x as int + 1)));
                        assert(rem0.push(x) =~= rem0 + seq![x]);
                        assert forall|u: usize| u < x + 1 && !order@.contains(u) implies
                            rem@.contains(u) by {
                            if u < x {
                                assert(rem0.contains(u));
                                let p = choose|p: int| 0 <= p < rem0.len() && rem0[p] == u;
                                assert(rem@[p] == u);
                            } else {
                                assert(rem@[rem0.len() as int] == u);
                            }
                        }
                    }
                }
                x += 1;
            }
            proof {
                // the spec order is exactly what was emitted
                assert(kahn_rec(n as int, es, order@, (n - order@.len()) as nat) == order@);
                assert(spec_kahn(n as int, es) == order@);
                assert(rem@ + Seq::<usize>::empty() =~= rem@);
                // some node is unemitted
                lemma_count_false_bounds(flags@, n as int);
                if order@.len() < n {
                }
                assert(count_false(flags@, n as int) > 0);
                if (forall|u: int| 0 <= u < n ==> #[trigger] flags@[u]) {
                    lemma_count_false_zero(flags@, n as int);
                    assert(false);
                }
                let u0 = choose|u: int| 0 <= u < n && !(#[trigger] flags@[u]);
                assert(!order@.contains(u0 as usize));
                assert(rem@.contains(u0 as usize));
                // every remaining node is restrained by a remaining node
                lemma_first_ready(n as int, es, order@, 0);
                assert forall|u: usize| #[trigger] rem@.contains(u) implies exists|k2: int|
                    0 <= k2 < es.len() && es[k2].1 == u && rem@.contains(es[k2].0) by {
                    let p = choose|p: int| 0 <= p < rem@.len() && rem@[p] == u;
                    assert(u < n && !order@.contains(u));
                    assert(!ready(es, order@, u));
                    let k2 = choose|k2: int|
                        0 <= k2 < es.len() && (#[trigger] es[k2]).1 == u && !order@.contains(
                            es[k2].0,
                        );
                    assert(es[k2].0 < n);
                    assert(rem@.contains(es[k2].0));
                }
                assert(blocked_set(es, rem@)) by {
                    reveal(blocked_set);
                }
            }
            return Err(rem);
        }
        let v = j;
        proof {
            lemma_indeg_zero(es, order@, v, m as int);
            assert(ready(es, order@, v));
            assert(first_ready(n as int, es, order@, v as int) == Some(v));
        }
        let ghost em0 = order@;
        let ghost fuel0 = (n - order@.len()) as nat;
        order.push(v);
        proof {
            lemma_count_false_set(flags@, v as int, n as int);
        }
        flags.set(v, true);
        proof {
            assert(order@ =~= em0.push(v));
            // the spec takes the same step
            assert(kahn_rec(n as int, es, em0, fuel0) == kahn_rec(
                n as int,
                es,
                em0.push(v),
                (fuel0 - 1) as nat,
            ));
            // order stays a permutation prefix
            assert forall|x: usize| x < n implies ((#[trigger] flags@[x as int])
                <==> order@.contains(x)) by {
                lemma_push_contains(em0, v, x);
            }
            assert(order@.no_duplicates());
            // the new entry respects every edge into it
            assert forall|k2: int, q: int|
                0 <= k2 < es.len() && 0 <= q < order@.len() && (#[trigger] es[k2]).1
                    == (#[trigger] order@[q]) implies exists|p: int|
                0 <= p < q && order@[p] == es[k2].0 by {
                if q < em0.len() {
                    assert(em0[q] == order@[q]);
                    let p = choose|p: int| 0 <= p < q && em0[p] == es[k2].0;
                    assert(order@[p] == es[k2].0);
                } else {
                    assert(order@[q] == v);
                    assert(em0.contains(es[k2].0));
                    let p = choose|p: int| 0 <= p < em0.len() && em0[p] == es[k2].0;
                    assert(order@[p] == es[k2].0);
                }
            }
        }
        // retire the edges leaving `v`
        let mut k2: usize = 0;
        while k2 < m
            invariant
                k2 <= m,
                m == es.len(),
                es == edges@,
                edges_wf(n as int, es),
                n == in_deg@.len(),
                v < n,
                order@ == em0.push(v),
                !em0.contains(v),
                forall|u: usize| u < n ==> (#[trigger] in_deg@[u as int]) == indeg(
                    es,
                    order@,
                    u,
                    k2 as int,
                ) + indeg(es, em0, u, m as int) - indeg(es, em0, u, k2 as int),
            decreases m - k2,
        {
            let e = edges[k2];
            let a = e.0;
            let b = e.1;
            proof {
                lemma_push_contains(em0, v, a);
            }
            if a == v {
                proof {
                    lemma_indeg_bounds(es, order@, b, k2 as int);
                    lemma_indeg_mono(es, em0, b, k2 as int + 1, m as int);
                }
                let d = in_deg[b];
                in_deg.set(b, d - 1);
            }
            k2 += 1;
        }
        proof {
            assert forall|u: usize| u < n implies (#[trigger] in_deg@[u as int]) == indeg(
                es,
                order@,
                u,
                m as int,
            ) by {}
        }
    }
    proof {
        assert(kahn_rec(n as int, es, order@, 0) == order@);
        assert(spec_kahn(n as int, es) == order@);
        lemma_count_false_bounds(flags@, n as int);
        lemma_count_false_none(flags@, n as int);
        assert forall|x: usize| x < n implies order@.contains(x) by {
            assert(flags@[x as int]);
        }
        assert(respects_order(es, order@)) by {
            reveal(respects_order);
        }
    }
    Ok(order)
}

/// Every node of `rem` is kept waiting by an edge whose source is in
/// `rem` too: the witness [`kahn_sort`] reports on failure.
#[verifier::opaque]
pub open spec fn blocked_set(edges: Seq<(usize, usize)>, rem: Seq<usize>) -> bool {
    forall|x: usize| #[trigger] rem.contains(x) ==> exists|k: int|
        0 <= k < edges.len() && edges[k].1 == x && rem.contains(edges[k].0)
}

/// The sequence lists the source of every edge strictly before its
/// target, wherever the target occurs.
#[verifier::opaque]
pub open spec fn respects_order(edges: Seq<(usize, usize)>, ord: Seq<usize>) -> bool {
    forall|k: int, q: int|
        0 <= k < edges.len() && 0 <= q < ord.len() && (#[trigger] edges[k]).1 == (
        #[trigger] ord[q]) ==> exists|p: int| 0 <= p < q && ord[p] == edges[k].0
}

proof fn blocked_instance(edges: Seq<(usize, usize)>, rem: Seq<usize>, x: usize)
    requires
        blocked_set(edges, rem),
        rem.contains(x),
    ensures
        exists|k: int| 0 <= k < edges.len() && (#[trigger] edges[k]).1 == x && rem.contains(
            edges[k].0,
        ),
{
    reveal(blocked_set);
}

proof fn respects_instance(edges: Seq<(usize, usize)>, ord: Seq<usize>, k: int, q: int)
    requires
        respects_order(edges, ord),
        0 <= k < edges.len(),
        0 <= q < ord.len(),
        edges[k].1 == ord[q],
    ensures
        exists|p: int| 0 <= p < q && ord[p] == edges[k].0,
{
    reveal(respects_order);
}

/// No entry of an order that respects the edges can belong to a set of
/// nodes each kept waiting by an edge from another node of the set.
proof fn lemma_no_blocked_at(edges: Seq<(usize, usize)>, rem: Seq<usize>, ord: Seq<usize>, q: int)
    requires
        blocked_set(edges, rem),
        respects_order(edges, ord),
        0 <= q < ord.len(),
    ensures
        !rem.contains(ord[q]),
    decreases q,
{
    if rem.contains(ord[q]) {
        blocked_instance(edges, rem, ord[q]);
        let k = choose|k: int|
            0 <= k < edges.len() && (#[trigger] edges[k]).1 == ord[q] && rem.contains(edges[k].0);
        respects_instance(edges, ord, k, q);
        let p = choose|p: int| 0 <= p < q && ord[p] == edges[k].0;
        lemma_no_blocked_at(edges, rem, ord, p);
    }
}

/// A cycle witness blocks every order. When [`kahn_sort`] fails it
/// reports a nonempty set of nodes, each kept waiting by an edge from
/// another reported node; this law says every sequence that respects
/// the edges must leave some node of such a set out, so a full order
/// exists exactly when the sort succeeds.
pub proof fn lemma_blocked_set_admits_no_order(
    edges: Seq<(usize, usize)>,
    rem: Seq<usize>,
    ord: Seq<usize>,
)
    requires
        rem.len() > 0,
        blocked_set(edges, rem),
        respects_order(edges, ord),
    ensures
        exists|x: usize| #[trigger] rem.contains(x) && !ord.contains(x),
{
    let x = rem[0];
    assert(rem.contains(x));
    if ord.contains(x) {
        let q = choose|q: int| 0 <= q < ord.len() && ord[q] == x;
        lemma_no_blocked_at(edges, rem, ord, q);
    }
}

/// A table of `upto` false entries counts them all.
pub proof fn lemma_count_false_all(vis: Seq<bool>, upto: int)
    requires
        forall|j: int| 0 <= j < upto ==> !(#[trigger] vis[j]),
        upto <= vis.len(),
    ensures
        count_false(vis, upto) == if upto >= 0 {
            upto
        } else {
            0int
        },
    decreases upto,
{
    if upto > 0 {
        lemma_count_false_all(vis, upto - 1);
    }
}

} // verus!
