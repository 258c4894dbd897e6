//! Good-extension reachability between coarse surface pairs in a graph of
//! marked isogenies: each state (a marked isogeny `A -> B`) carries its coarse
//! pair `(A, B)`, and the graph's edges are the good extensions.
use crate::graph::{
    deep_size_flags, deep_size_lists, deep_size_numbers, deep_size_pairs, filled, seqs_of,
    DirectedGraph,
};
use crate::fp4::lemma_f2_norm_zero;
use crate::fq::{dmod, f2_field, f2_inverse, f2_mul, f2_norm, Fp2};
use crate::theta::{f2_views, lemma_first_zero_bound, th_first_zero2, Theta};
use std::collections::VecDeque;
use vstd::prelude::*;
use vstd::set_lib::{lemma_int_range, lemma_len_subset, set_int_range};

verus! {

/// `a` precedes `b` in lexicographic order.
pub open spec fn pair_lt(a: (usize, usize), b: (usize, usize)) -> bool {
    a.0 < b.0 || (a.0 == b.0 && a.1 < b.1)
}

/// The pairs are strictly increasing in lexicographic order.
pub open spec fn sorted_pairs(s: Seq<(usize, usize)>) -> bool {
    forall|i: int, j: int| 0 <= i < j < s.len() ==> pair_lt(#[trigger] s[i], #[trigger] s[j])
}

/// Some state with coarse pair `a` reaches some state with coarse pair `b`.
pub open spec fn pair_reaches(g: DirectedGraph, pairs: Seq<(usize, usize)>, a: (usize, usize), b: (usize, usize)) -> bool {
    exists|s: int, t: int|
        0 <= s < pairs.len() && 0 <= t < pairs.len() && pairs[s] == a && pairs[t] == b && #[trigger] g.reaches(s, t)
}

/// Every coarse pair reaches every coarse pair.
pub open spec fn all_pairs_connected(g: DirectedGraph, pairs: Seq<(usize, usize)>) -> bool {
    forall|a: (usize, usize), b: (usize, usize)|
        pairs.contains(a) && pairs.contains(b) ==> #[trigger] pair_reaches(g, pairs, a, b)
}

/// `m = (a, b)` is the first failure of pair reachability: `a` misses `b`,
/// every source pair before `a` (in sorted order) reaches every pair, and `a`
/// reaches every pair before `b`.
pub open spec fn is_first_missing(g: DirectedGraph, pairs: Seq<(usize, usize)>, m: ((usize, usize), (usize, usize))) -> bool {
    &&& pairs.contains(m.0)
    &&& pairs.contains(m.1)
    &&& !pair_reaches(g, pairs, m.0, m.1)
    &&& forall|a: (usize, usize), b: (usize, usize)|
        pairs.contains(a) && pairs.contains(b) && pair_lt(a, m.0) ==> #[trigger] pair_reaches(g, pairs, a, b)
    &&& forall|b: (usize, usize)| pairs.contains(b) && pair_lt(b, m.1) ==> #[trigger] pair_reaches(g, pairs, m.0, b)
}

/// The number of edges: the sum of the lengths of the adjacency lists.
pub open spec fn edge_total(adj: Seq<Seq<usize>>) -> int
    decreases adj.len(),
{
    if adj.len() == 0 {
        0
    } else {
        edge_total(adj.drop_last()) + adj.last().len()
    }
}

/// The sorted list of the distinct coarse pairs.
pub(crate) fn distinct_sorted_pairs(pairs: &Vec<(usize, usize)>) -> (cps: Vec<(usize, usize)>)
    ensures
        sorted_pairs(cps@),
        forall|x: (usize, usize)| #[trigger] cps@.contains(x) <==> pairs@.contains(x),
{
    let mut cps: Vec<(usize, usize)> = Vec::new();
    let mut i: usize = 0;
    while i < pairs.len()
        invariant
            i <= pairs@.len(),
            sorted_pairs(cps@),
            forall|x: (usize, usize)| #[trigger] cps@.contains(x) <==> pairs@.take(i as int).contains(x),
        decreases pairs@.len() - i,
    {
        let x = pairs[i];
        let mut pos: usize = 0;
        while pos < cps.len() && (cps[pos].0 < x.0 || (cps[pos].0 == x.0 && cps[pos].1 < x.1))
            invariant
                pos <= cps@.len(),
                forall|q: int| 0 <= q < pos ==> pair_lt(#[trigger] cps@[q], x),
            decreases cps@.len() - pos,
        {
            pos = pos + 1;
        }
        let ghost before = cps@;
        proof {
            assert(pairs@.take(i as int + 1) =~= pairs@.take(i as int).push(x));
        }
        if pos < cps.len() && cps[pos].0 == x.0 && cps[pos].1 == x.1 {
            proof {
                assert forall|y: (usize, usize)| #[trigger] cps@.contains(y) <==> pairs@.take(i as int + 1).contains(y) by {
                    if pairs@.take(i as int + 1).contains(y) && y != x {
                        let q = choose|q: int| 0 <= q < i + 1 && #[trigger] pairs@.take(i as int + 1)[q] == y;
                        assert(pairs@.take(i as int)[q] == y);
                    }
                    if pairs@.take(i as int).contains(y) {
                        let q = choose|q: int| 0 <= q < i && #[trigger] pairs@.take(i as int)[q] == y;
                        assert(pairs@.take(i as int + 1)[q] == y);
                    }
                    if y == x {
                        assert(pairs@.take(i as int + 1)[i as int] == x);
                    }
                }
            }
        } else {
            cps.insert(pos, x);
            proof {
                assert forall|a: int, b: int| 0 <= a < b < cps@.len() implies pair_lt(#[trigger] cps@[a], #[trigger] cps@[b]) by {
                    if b < pos {
                        assert(cps@[a] == before[a] && cps@[b] == before[b]);
                    } else if b == pos {
                        assert(cps@[a] == before[a]);
                    } else if a == pos {
                        assert(cps@[b] == before[b - 1]);
                        if b - 1 > pos {
                            assert(pair_lt(before[pos as int], before[b - 1]));
                        }
                        assert(!pair_lt(before[pos as int], x));
                    } else if a < pos {
                        assert(cps@[a] == before[a] && cps@[b] == before[b - 1]);
                    } else {
                        assert(cps@[a] == before[a - 1] && cps@[b] == before[b - 1]);
                    }
                }
                assert forall|y: (usize, usize)| #[trigger] cps@.contains(y) <==> pairs@.take(i as int + 1).contains(y) by {
                    if cps@.contains(y) && y != x {
                        let q = choose|q: int| 0 <= q < cps@.len() && #[trigger] cps@[q] == y;
                        if q < pos {
                            assert(before[q] == y);
                        } else {
                            assert(before[q - 1] == y);
                        }
                        assert(before.contains(y));
                        let q2 = choose|q2: int| 0 <= q2 < i && #[trigger] pairs@.take(i as int)[q2] == y;
                        assert(pairs@.take(i as int + 1)[q2] == y);
                    }
                    if pairs@.take(i as int + 1).contains(y) && y != x {
                        let q = choose|q: int| 0 <= q < i + 1 && #[trigger] pairs@.take(i as int + 1)[q] == y;
                        assert(pairs@.take(i as int)[q] == y);
                        assert(before.contains(y));
                        let q2 = choose|q2: int| 0 <= q2 < before.len() && #[trigger] before[q2] == y;
                        if q2 < pos {
                            assert(cps@[q2] == y);
                        } else {
                            assert(cps@[q2 + 1] == y);
                        }
                    }
                    if y == x {
                        assert(cps@[pos as int] == x);
                        assert(pairs@.take(i as int + 1)[i as int] == x);
                    }
                }
            }
        }
        i = i + 1;
    }
    proof {
        assert(pairs@.take(pairs@.len() as int) =~= pairs@);
    }
    cps
}

/// The position of `x` in the sorted list `cps`.
pub(crate) fn position_of(cps: &Vec<(usize, usize)>, x: (usize, usize)) -> (r: usize)
    requires
        cps@.contains(x),
    ensures
        r < cps@.len(),
        cps@[r as int] == x,
{
    let mut q: usize = 0;
    while q < cps.len()
        invariant
            q <= cps@.len(),
            cps@.contains(x),
            forall|k: int| 0 <= k < q ==> #[trigger] cps@[k] != x,
        decreases cps@.len() - q,
    {
        if cps[q].0 == x.0 && cps[q].1 == x.1 {
            return q;
        }
        q = q + 1;
    }
    proof {
        let k = choose|k: int| 0 <= k < cps@.len() && #[trigger] cps@[k] == x;
        assert(false);
    }
    0
}

/// `v` is reachable from a state whose coarse pair has index `ia`.
pub open spec fn from_fiber(g: DirectedGraph, pair_idx: Seq<usize>, ia: int, v: int) -> bool {
    exists|s: int| 0 <= s < g.n && pair_idx[s] == ia && #[trigger] g.reaches(s, v)
}

/// A list without repeats of numbers below `n` has at most `n` entries.
proof fn lemma_distinct_bound(q: Seq<usize>, n: int)
    requires
        q.no_duplicates(),
        forall|i: int| 0 <= i < q.len() ==> #[trigger] q[i] < n,
        n >= 0,
    ensures
        q.len() <= n,
{
    let qi = q.map_values(|x: usize| x as int);
    assert(qi.no_duplicates()) by {
        assert forall|i: int, j: int| 0 <= i < qi.len() && 0 <= j < qi.len() && i != j implies qi[i] != qi[j] by {
            assert(q[i] != q[j]);
        }
    }
    qi.unique_seq_to_set();
    lemma_int_range(0, n);
    assert(qi.to_set().subset_of(set_int_range(0, n))) by {
        assert forall|x: int| qi.to_set().contains(x) implies set_int_range(0, n).contains(x) by {
            let k = choose|k: int| 0 <= k < qi.len() && qi[k] == x;
            assert(q[k] < n);
        }
    }
    lemma_len_subset(qi.to_set(), set_int_range(0, n));
}

/// A set of vertices closed under edges holds everything its members reach.
proof fn lemma_closed_walk(g: DirectedGraph, vis: Seq<bool>, p: Seq<int>, i: int)
    requires
        g.wf(),
        vis.len() == g.n,
        forall|v: int, k: int| 0 <= v < g.n && 0 <= k < g.deg(v) && vis[v] ==> vis[#[trigger] g.succ(v, k)],
        g.is_path(p),
        vis[p[0]],
        0 <= i < p.len(),
    ensures
        vis[p[i]],
    decreases i,
{
    if i > 0 {
        lemma_closed_walk(g, vis, p, i - 1);
        let h = i - 1;
        assert(g.edge(p[h], p[h + 1]));
        let k = choose|k: int| 0 <= k < g.deg(p[h]) && #[trigger] g.succ(p[h], k) == p[h + 1];
        assert(0 <= p[h] < g.n);
    }
}

/// Marks in `visited` the states reachable from the states whose coarse pair
/// has index `ia`, and in `reached` the indices of the coarse pairs found
/// among them, by breadth-first search.
fn search_from(
    g: &DirectedGraph,
    pair_idx: &Vec<usize>,
    ia: usize,
    visited: &mut Vec<bool>,
    queue: &mut Vec<usize>,
    reached: &mut Vec<bool>,
)
    requires
        g.wf(),
        pair_idx@.len() == g.n,
        old(visited)@.len() == g.n,
        forall|s: int| 0 <= s < g.n ==> #[trigger] pair_idx@[s] < old(reached)@.len(),
    ensures
        final(visited)@.len() == g.n,
        final(reached)@.len() == old(reached)@.len(),
        forall|j: int|
            0 <= j < old(reached)@.len() ==> (#[trigger] final(reached)@[j] <==> exists|t: int|
                0 <= t < g.n && pair_idx@[t] == j && #[trigger] from_fiber(*g, pair_idx@, ia as int, t)),
{
    let n = g.n;
    let k = reached.len();
    let mut c: usize = 0;
    while c < n
        invariant
            c <= n,
            n == g.n,
            visited@.len() == n,
            forall|v: int| 0 <= v < c ==> !#[trigger] visited@[v],
        decreases n - c,
    {
        visited.set(c, false);
        c = c + 1;
    }
    c = 0;
    while c < k
        invariant
            c <= k,
            reached@.len() == k,
            forall|j: int| 0 <= j < c ==> !#[trigger] reached@[j],
        decreases k - c,
    {
        reached.set(c, false);
        c = c + 1;
    }
    queue.clear();
    let mut s: usize = 0;
    while s < n
        invariant
            g.wf(),
            s <= n,
            n == g.n,
            pair_idx@.len() == n,
            visited@.len() == n,
            reached@.len() == k,
            forall|j: int| 0 <= j < k ==> !#[trigger] reached@[j],
            forall|v: int| 0 <= v < n ==> (#[trigger] visited@[v] <==> queue@.contains(v as usize)),
            forall|i: int| 0 <= i < queue@.len() ==> #[trigger] queue@[i] < n && pair_idx@[queue@[i] as int] == ia,
            queue@.no_duplicates(),
            forall|t: int| 0 <= t < s && pair_idx@[t] == ia ==> #[trigger] visited@[t],
        decreases n - s,
    {
        if pair_idx[s] == ia && !visited[s] {
            let ghost q0 = queue@;
            visited.set(s, true);
            queue.push(s);
            proof {
                assert forall|v: int| 0 <= v < n implies (#[trigger] visited@[v] <==> queue@.contains(v as usize)) by {
                    if v != s as int {
                        if q0.contains(v as usize) {
                            let i = choose|i: int| 0 <= i < q0.len() && q0[i] == v as usize;
                            assert(queue@[i] == v as usize);
                        }
                        if queue@.contains(v as usize) {
                            let i = choose|i: int| 0 <= i < queue@.len() && queue@[i] == v as usize;
                            assert(i < q0.len());
                            assert(q0[i] == v as usize);
                        }
                    } else {
                        assert(queue@[q0.len() as int] == s);
                    }
                }
                assert(queue@.no_duplicates()) by {
                    assert(!q0.contains(s));
                    assert forall|i: int, j: int| 0 <= i < j < queue@.len() implies queue@[i] != queue@[j] by {
                        if j == q0.len() {
                            assert(queue@[i] == q0[i]);
                        }
                    }
                }
            }
        }
        s = s + 1;
    }
    let mut head: usize = 0;
    proof {
        lemma_distinct_bound(queue@, n as int);
        assert forall|i: int| 0 <= i < queue@.len() implies #[trigger] from_fiber(*g, pair_idx@, ia as int, queue@[i] as int) by {
            let v = queue@[i] as int;
            g.lemma_reaches_refl(v);
        }
    }
    while head < queue.len()
        invariant
            g.wf(),
            n == g.n,
            pair_idx@.len() == n,
            visited@.len() == n,
            reached@.len() == k,
            forall|s2: int| 0 <= s2 < n ==> #[trigger] pair_idx@[s2] < k,
            head <= queue@.len() <= n,
            forall|v: int| 0 <= v < n ==> (#[trigger] visited@[v] <==> queue@.contains(v as usize)),
            forall|i: int| 0 <= i < queue@.len() ==> #[trigger] queue@[i] < n,
            forall|i: int| 0 <= i < queue@.len() ==> #[trigger] from_fiber(*g, pair_idx@, ia as int, queue@[i] as int),
            queue@.no_duplicates(),
            forall|t: int| 0 <= t < n && pair_idx@[t] == ia ==> #[trigger] visited@[t],
            forall|i: int, e: int| 0 <= i < head && 0 <= e < g.deg(queue@[i] as int) ==> #[trigger] visited@[g.succ(queue@[i] as int, e)],
            forall|j: int| 0 <= j < k ==> (#[trigger] reached@[j] <==> exists|i: int| 0 <= i < head && pair_idx@[#[trigger] queue@[i] as int] == j),
        decreases n - head,
    {
        let u = queue[head];
        let pu = pair_idx[u];
        let ghost r0 = reached@;
        reached.set(pu, true);
        proof {
            assert forall|j: int| 0 <= j < k implies (#[trigger] reached@[j] <==> exists|i: int| 0 <= i < head + 1 && pair_idx@[#[trigger] queue@[i] as int] == j) by {
                if j == pu as int {
                    assert(pair_idx@[queue@[head as int] as int] == j);
                } else {
                    if exists|i: int| 0 <= i < head + 1 && pair_idx@[#[trigger] queue@[i] as int] == j {
                        let i = choose|i: int| 0 <= i < head + 1 && pair_idx@[#[trigger] queue@[i] as int] == j;
                        assert(i < head);
                    }
                }
            }
        }
        let ghost q_head = queue@;
        let children = &g.adj[u];
        let mut e: usize = 0;
        while e < children.len()
            invariant
                g.wf(),
                n == g.n,
                u < n,
                head < q_head.len(),
                q_head[head as int] == u,
                children@ == g.adj@[u as int]@,
                e <= children@.len(),
                pair_idx@.len() == n,
                visited@.len() == n,
                reached@.len() == k,
                queue@.len() <= n,
                queue@.len() >= q_head.len(),
                forall|i: int| 0 <= i < q_head.len() ==> #[trigger] queue@[i] == q_head[i],
                forall|v: int| 0 <= v < n ==> (#[trigger] visited@[v] <==> queue@.contains(v as usize)),
                forall|i: int| 0 <= i < queue@.len() ==> #[trigger] queue@[i] < n,
                forall|i: int| 0 <= i < queue@.len() ==> #[trigger] from_fiber(*g, pair_idx@, ia as int, queue@[i] as int),
                queue@.no_duplicates(),
                forall|t: int| 0 <= t < n && pair_idx@[t] == ia ==> #[trigger] visited@[t],
                forall|i: int, e2: int| 0 <= i < head && 0 <= e2 < g.deg(queue@[i] as int) ==> #[trigger] visited@[g.succ(queue@[i] as int, e2)],
                forall|e2: int| 0 <= e2 < e ==> #[trigger] visited@[g.succ(u as int, e2)],
                forall|j: int| 0 <= j < k ==> (#[trigger] reached@[j] <==> exists|i: int| 0 <= i < head + 1 && pair_idx@[#[trigger] queue@[i] as int] == j),
            decreases children@.len() - e,
        {
            let v = children[e];
            assert(v == g.succ(u as int, e as int));
            assert(v < n);
            if !visited[v] {
                let ghost q0 = queue@;
                visited.set(v, true);
                queue.push(v);
                proof {
                    assert forall|w: int| 0 <= w < n implies (#[trigger] visited@[w] <==> queue@.contains(w as usize)) by {
                        if w != v as int {
                            if q0.contains(w as usize) {
                                let i = choose|i: int| 0 <= i < q0.len() && q0[i] == w as usize;
                                assert(queue@[i] == w as usize);
                            }
                            if queue@.contains(w as usize) {
                                let i = choose|i: int| 0 <= i < queue@.len() && queue@[i] == w as usize;
                                assert(i < q0.len());
                                assert(q0[i] == w as usize);
                            }
                        } else {
                            assert(queue@[q0.len() as int] == v);
                        }
                    }
                    assert(queue@.no_duplicates()) by {
                        assert(!q0.contains(v));
                        assert forall|i: int, j: int| 0 <= i < j < queue@.len() implies queue@[i] != queue@[j] by {
                            if j == q0.len() {
                                assert(queue@[i] == q0[i]);
                            }
                        }
                    }
                    lemma_distinct_bound(queue@, n as int);
                    assert forall|i: int| 0 <= i < q_head.len() implies #[trigger] queue@[i] == q_head[i] by {
                        assert(queue@[i] == q0[i]);
                    }
                    assert(from_fiber(*g, pair_idx@, ia as int, v as int)) by {
                        let s0 = choose|s0: int| 0 <= s0 < g.n && pair_idx@[s0] == ia && #[trigger] g.reaches(s0, u as int);
                        assert(q0[head as int] == u);
                        assert(from_fiber(*g, pair_idx@, ia as int, q0[head as int] as int));
                        g.lemma_edge_succ(u as int, e as int);
                        g.lemma_reaches_step(s0, u as int, v as int);
                    }
                    assert forall|i: int| 0 <= i < queue@.len() implies #[trigger] from_fiber(*g, pair_idx@, ia as int, queue@[i] as int) by {
                        if i < q0.len() {
                            assert(queue@[i] == q0[i]);
                        }
                    }
                    assert forall|j: int| 0 <= j < k implies (#[trigger] reached@[j] <==> exists|i: int| 0 <= i < head + 1 && pair_idx@[#[trigger] queue@[i] as int] == j) by {
                        if exists|i: int| 0 <= i < head + 1 && pair_idx@[#[trigger] q0[i] as int] == j {
                            let i = choose|i: int| 0 <= i < head + 1 && pair_idx@[#[trigger] q0[i] as int] == j;
                            assert(queue@[i] == q0[i]);
                        }
                        if exists|i: int| 0 <= i < head + 1 && pair_idx@[#[trigger] queue@[i] as int] == j {
                            let i = choose|i: int| 0 <= i < head + 1 && pair_idx@[#[trigger] queue@[i] as int] == j;
                            assert(queue@[i] == q0[i]);
                        }
                    }
                    assert forall|i: int, e2: int| 0 <= i < head && 0 <= e2 < g.deg(queue@[i] as int) implies #[trigger] visited@[g.succ(queue@[i] as int, e2)] by {
                        assert(queue@[i] == q0[i]);
                    }
                }
            }
            e = e + 1;
        }
        proof {
            assert forall|i: int, e2: int| 0 <= i < head + 1 && 0 <= e2 < g.deg(queue@[i] as int) implies #[trigger] visited@[g.succ(queue@[i] as int, e2)] by {
                if i == head {
                    assert(queue@[i] == u);
                }
            }
            assert forall|j: int| 0 <= j < k implies (#[trigger] reached@[j] <==> exists|i: int| 0 <= i < head + 1 && pair_idx@[#[trigger] queue@[i] as int] == j) by {}
        }
        head = head + 1;
    }
    proof {
        let vis = visited@;
        assert forall|v: int, e2: int| 0 <= v < g.n && 0 <= e2 < g.deg(v) && vis[v] implies vis[#[trigger] g.succ(v, e2)] by {
            assert(queue@.contains(v as usize));
            let i = choose|i: int| 0 <= i < queue@.len() && queue@[i] == v as usize;
            assert(g.succ(queue@[i] as int, e2) == g.succ(v, e2));
        }
        assert forall|j: int| 0 <= j < k implies (#[trigger] reached@[j] <==> exists|t: int|
            0 <= t < g.n && pair_idx@[t] == j && #[trigger] from_fiber(*g, pair_idx@, ia as int, t)) by {
            if reached@[j] {
                let i = choose|i: int| 0 <= i < head && pair_idx@[#[trigger] queue@[i] as int] == j;
                let t = queue@[i] as int;
                assert(from_fiber(*g, pair_idx@, ia as int, t));
            }
            if exists|t: int| 0 <= t < g.n && pair_idx@[t] == j && #[trigger] from_fiber(*g, pair_idx@, ia as int, t) {
                let t = choose|t: int| 0 <= t < g.n && pair_idx@[t] == j && #[trigger] from_fiber(*g, pair_idx@, ia as int, t);
                let s0 = choose|s0: int| 0 <= s0 < g.n && pair_idx@[s0] == ia && #[trigger] g.reaches(s0, t);
                let p = choose|p: Seq<int>| #[trigger] g.is_path(p) && p[0] == s0 && p.last() == t;
                assert(vis[s0]);
                lemma_closed_walk(*g, vis, p, p.len() - 1);
                assert(vis[t]);
                assert(queue@.contains(t as usize));
                let i = choose|i: int| 0 <= i < queue@.len() && queue@[i] == t as usize;
                assert(pair_idx@[queue@[i] as int] == j);
            }
        }
    }
}

/// In a strictly increasing list each pair occurs at one position only.
proof fn lemma_sorted_unique(s: Seq<(usize, usize)>, i: int, j: int)
    requires
        sorted_pairs(s),
        0 <= i < s.len(),
        0 <= j < s.len(),
        s[i] == s[j],
    ensures
        i == j,
{
    if i < j {
        assert(pair_lt(s[i], s[j]));
    } else if j < i {
        assert(pair_lt(s[j], s[i]));
    }
}

/// Multi-source BFS from every state representing one coarse pair.
///
/// A coarse pair (A,B) reaches (C,D) if at least one state with pair (A,B)
/// has a path ending at at least one state with pair (C,D). Returns whether
/// every coarse pair reaches every coarse pair; otherwise the first source
/// pair (in sorted order) that misses a pair, with the first pair it misses;
/// the sorted list of the coarse pairs; and the bytes held by the working
/// vectors.
pub fn check_coarse_pair_reachability(pairs: &Vec<(usize, usize)>, graph: &DirectedGraph) -> (res: (
    bool,
    Option<((usize, usize), (usize, usize))>,
    Vec<(usize, usize)>,
    usize,
))
    requires
        graph.wf(),
        pairs@.len() == graph.n,
    ensures
        sorted_pairs(res.2@),
        forall|x: (usize, usize)| #[trigger] res.2@.contains(x) <==> pairs@.contains(x),
        res.0 <==> all_pairs_connected(*graph, pairs@),
        res.0 <==> res.1 is None,
        res.1 matches Some(m) ==> is_first_missing(*graph, pairs@, m),
{
    let n = graph.n;
    let coarse_pairs = distinct_sorted_pairs(pairs);
    let k = coarse_pairs.len();
    let mut pair_idx: Vec<usize> = Vec::new();
    let mut s: usize = 0;
    while s < n
        invariant
            s <= n,
            n == graph.n,
            pairs@.len() == n,
            forall|x: (usize, usize)| #[trigger] coarse_pairs@.contains(x) <==> pairs@.contains(x),
            k == coarse_pairs@.len(),
            pair_idx@.len() == s,
            forall|t: int| 0 <= t < s ==> #[trigger] pair_idx@[t] < k && coarse_pairs@[pair_idx@[t] as int] == pairs@[t],
        decreases n - s,
    {
        proof {
            assert(pairs@.contains(pairs@[s as int]));
        }
        let q = position_of(&coarse_pairs, pairs[s]);
        let ghost before = pair_idx@;
        pair_idx.push(q);
        proof {
            assert forall|t: int| 0 <= t < s + 1 implies #[trigger] pair_idx@[t] < k && coarse_pairs@[pair_idx@[t] as int] == pairs@[t] by {
                if t < s {
                    assert(pair_idx@[t] == before[t]);
                }
            }
        }
        s = s + 1;
    }
    let mut visited: Vec<bool> = filled(n, false);
    let mut queue: Vec<usize> = Vec::new();
    let mut reached: Vec<bool> = filled(k, false);
    // the coarse pairs reached from the states with pair `cps[a]` are those with
    // a reached index
    let ghost cps = coarse_pairs@;
    let ghost ps = pairs@;
    let mut ia: usize = 0;
    while ia < k
        invariant
            graph.wf(),
            n == graph.n,
            ps == pairs@,
            ps.len() == n,
            cps == coarse_pairs@,
            k == cps.len(),
            sorted_pairs(cps),
            forall|x: (usize, usize)| #[trigger] cps.contains(x) <==> ps.contains(x),
            pair_idx@.len() == n,
            forall|t: int| 0 <= t < n ==> #[trigger] pair_idx@[t] < k && cps[pair_idx@[t] as int] == ps[t],
            visited@.len() == n,
            reached@.len() == k,
            ia <= k,
            forall|a: int, b: int| 0 <= a < ia && 0 <= b < k ==> #[trigger] pair_reaches(*graph, ps, cps[a], cps[b]),
        decreases k - ia,
    {
        search_from(graph, &pair_idx, ia, &mut visited, &mut queue, &mut reached);
        proof {
            assert forall|j: int| 0 <= j < k implies (#[trigger] reached@[j] <==> pair_reaches(*graph, ps, cps[ia as int], cps[j])) by {
                if reached@[j] {
                    let t = choose|t: int| 0 <= t < graph.n && pair_idx@[t] == j && #[trigger] from_fiber(*graph, pair_idx@, ia as int, t);
                    let s0 = choose|s0: int| 0 <= s0 < graph.n && pair_idx@[s0] == ia && #[trigger] graph.reaches(s0, t);
                    assert(ps[s0] == cps[ia as int] && ps[t] == cps[j]);
                }
                if pair_reaches(*graph, ps, cps[ia as int], cps[j]) {
                    let (s0, t) = choose|s0: int, t: int|
                        0 <= s0 < ps.len() && 0 <= t < ps.len() && ps[s0] == cps[ia as int] && ps[t] == cps[j] && #[trigger] graph.reaches(s0, t);
                    lemma_sorted_unique(cps, pair_idx@[s0] as int, ia as int);
                    lemma_sorted_unique(cps, pair_idx@[t] as int, j);
                    assert(from_fiber(*graph, pair_idx@, ia as int, t));
                }
            }
        }
        match first_unset(&reached) {
            Some(ib) => {
                let memory_bytes = deep_size_pairs(&coarse_pairs).saturating_add(deep_size_numbers(&pair_idx))
                    .saturating_add(deep_size_flags(&visited)).saturating_add(deep_size_numbers(&queue))
                    .saturating_add(deep_size_flags(&reached));
                let source_pair = coarse_pairs[ia];
                let target_pair = coarse_pairs[ib];
                proof {
                    assert(cps.contains(cps[ia as int]) && cps.contains(cps[ib as int]));
                    assert(!pair_reaches(*graph, ps, cps[ia as int], cps[ib as int]));
                    assert(!all_pairs_connected(*graph, ps)) by {
                        assert(ps.contains(cps[ia as int]) && ps.contains(cps[ib as int]));
                    }
                    assert forall|a: (usize, usize), b: (usize, usize)|
                        ps.contains(a) && ps.contains(b) && pair_lt(a, source_pair) implies #[trigger] pair_reaches(*graph, ps, a, b) by {
                        assert(cps.contains(a) && cps.contains(b));
                        let x = choose|x: int| 0 <= x < cps.len() && cps[x] == a;
                        let y = choose|y: int| 0 <= y < cps.len() && cps[y] == b;
                        if x >= ia {
                            if x > ia {
                                assert(pair_lt(cps[ia as int], cps[x]));
                            }
                        }
                        assert(pair_reaches(*graph, ps, cps[x], cps[y]));
                    }
                    assert forall|b: (usize, usize)| ps.contains(b) && pair_lt(b, target_pair) implies #[trigger] pair_reaches(*graph, ps, source_pair, b) by {
                        assert(cps.contains(b));
                        let y = choose|y: int| 0 <= y < cps.len() && cps[y] == b;
                        if y >= ib {
                            if y > ib {
                                assert(pair_lt(cps[ib as int], cps[y]));
                            }
                        }
                        assert(reached@[y]);
                    }
                }
                return (false, Some((source_pair, target_pair)), coarse_pairs, memory_bytes);
            },
            None => {
                proof {
                    assert forall|a: int, b: int| 0 <= a < ia + 1 && 0 <= b < k implies #[trigger] pair_reaches(*graph, ps, cps[a], cps[b]) by {
                        if a == ia {
                            assert(reached@[b]);
                        }
                    }
                }
            },
        }
        ia = ia + 1;
    }
    proof {
        assert forall|a: (usize, usize), b: (usize, usize)| ps.contains(a) && ps.contains(b) implies #[trigger] pair_reaches(*graph, ps, a, b) by {
            assert(cps.contains(a) && cps.contains(b));
            let x = choose|x: int| 0 <= x < cps.len() && cps[x] == a;
            let y = choose|y: int| 0 <= y < cps.len() && cps[y] == b;
            assert(pair_reaches(*graph, ps, cps[x], cps[y]));
        }
    }
    let memory_bytes = deep_size_pairs(&coarse_pairs).saturating_add(deep_size_numbers(&pair_idx))
        .saturating_add(deep_size_flags(&visited)).saturating_add(deep_size_numbers(&queue))
        .saturating_add(deep_size_flags(&reached));
    (true, None, coarse_pairs, memory_bytes)
}

/// The first position holding `false`, if any.
fn first_unset(v: &Vec<bool>) -> (r: Option<usize>)
    ensures
        r is None ==> forall|b: int| 0 <= b < v@.len() ==> #[trigger] v@[b],
        r matches Some(i) ==> i < v@.len() && !v@[i as int] && forall|b: int| 0 <= b < i ==> #[trigger] v@[b],
{
    let mut i: usize = 0;
    while i < v.len()
        invariant
            i <= v@.len(),
            forall|b: int| 0 <= b < i ==> #[trigger] v@[b],
        decreases v@.len() - i,
    {
        if !v[i] {
            return Some(i);
        }
        i = i + 1;
    }
    None
}

/// The findings of the marked-edge reachability analysis.
pub struct EdgeReachabilityAnalysis {
    pub variety_count: usize,
    pub coarse_pair_count: usize,
    pub marked_edge_state_count: usize,
    pub marked_transition_count: usize,
    pub marked_scc_count: usize,
    pub all_marked_edges_mutually_reachable: bool,
    pub all_coarse_pairs_connected_via_good_paths: bool,
    pub first_unreachable_source_pair: Option<(usize, usize)>,
    pub first_unreachable_target_pair: Option<(usize, usize)>,
}

/// A prefix has no more edges than the whole list.
pub(crate) proof fn lemma_edge_total_prefix(adj: Seq<Seq<usize>>, i: int)
    requires
        0 <= i <= adj.len(),
    ensures
        edge_total(adj.take(i)) <= edge_total(adj),
        edge_total(adj.take(i)) >= 0,
    decreases adj.len() - i,
{
    if i < adj.len() {
        lemma_edge_total_prefix(adj, i + 1);
        assert(adj.take(i + 1).drop_last() =~= adj.take(i));
    } else {
        assert(adj.take(i) =~= adj);
    }
    lemma_edge_total_nonneg(adj.take(i));
}

proof fn lemma_edge_total_nonneg(adj: Seq<Seq<usize>>)
    ensures
        edge_total(adj) >= 0,
    decreases adj.len(),
{
    if adj.len() > 0 {
        lemma_edge_total_nonneg(adj.drop_last());
    }
}

/// Analyzes a graph of marked states: how many coarse pairs and states there
/// are, how many transitions, how many strongly connected components, whether
/// the states are mutually reachable and whether every coarse pair reaches
/// every coarse pair (or else the first failure). Also returns the bytes held
/// by the working vectors of the checks.
pub fn analyze_edge_reachability(
    variety_count: usize,
    pairs: &Vec<(usize, usize)>,
    graph: &DirectedGraph,
) -> (res: (EdgeReachabilityAnalysis, usize))
    requires
        graph.wf(),
        pairs@.len() == graph.n,
        edge_total(seqs_of(graph.adj@)) <= usize::MAX,
    ensures
        res.0.variety_count == variety_count,
        res.0.coarse_pair_count == pairs@.to_set().len(),
        res.0.marked_edge_state_count == pairs@.len(),
        res.0.marked_transition_count == edge_total(seqs_of(graph.adj@)),
        exists|c: Seq<Seq<usize>>| graph.is_scc_decomposition(c) && c.len() == res.0.marked_scc_count,
        res.0.all_marked_edges_mutually_reachable <==> (graph.n > 0 && forall|s: int, t: int|
            0 <= s < graph.n && 0 <= t < graph.n ==> #[trigger] graph.reaches(s, t)),
        res.0.all_coarse_pairs_connected_via_good_paths <==> all_pairs_connected(*graph, pairs@),
        match (res.0.first_unreachable_source_pair, res.0.first_unreachable_target_pair) {
            (Some(a), Some(b)) => is_first_missing(*graph, pairs@, (a, b)),
            (None, None) => all_pairs_connected(*graph, pairs@),
            _ => false,
        },
{
    let (sccs, scc_memory_bytes) = graph.scc();
    let all_marked_edges_mutually_reachable = sccs.len() == 1;
    proof {
        graph.lemma_single_component(seqs_of(sccs@));
    }
    let (all_coarse_pairs_connected, first_missing, coarse_pairs, bfs_memory_bytes) =
        check_coarse_pair_reachability(pairs, graph);
    let first_unreachable_source_pair = match first_missing {
        Some(m) => Some(m.0),
        None => None,
    };
    let first_unreachable_target_pair = match first_missing {
        Some(m) => Some(m.1),
        None => None,
    };
    let mut marked_transition_count: usize = 0;
    let mut i: usize = 0;
    let ghost adj = seqs_of(graph.adj@);
    while i < graph.adj.len()
        invariant
            adj == seqs_of(graph.adj@),
            i <= graph.adj@.len(),
            edge_total(adj) <= usize::MAX,
            marked_transition_count == edge_total(adj.take(i as int)),
        decreases graph.adj@.len() - i,
    {
        proof {
            lemma_edge_total_prefix(adj, i as int + 1);
            assert(adj.take(i as int + 1).drop_last() =~= adj.take(i as int));
            assert(adj.take(i as int + 1).last() == graph.adj@[i as int]@);
        }
        marked_transition_count = marked_transition_count + graph.adj[i].len();
        i = i + 1;
    }
    proof {
        assert(adj.take(i as int) =~= adj);
        let cps = coarse_pairs@;
        assert(cps.no_duplicates()) by {
            assert forall|a: int, b: int| 0 <= a < cps.len() && 0 <= b < cps.len() && a != b implies cps[a] != cps[b] by {
                if cps[a] == cps[b] {
                    lemma_sorted_unique(cps, a, b);
                }
            }
        }
        cps.unique_seq_to_set();
        assert(cps.to_set() =~= pairs@.to_set());
    }
    let check_peak_bytes = scc_memory_bytes.saturating_add(bfs_memory_bytes).saturating_add(
        deep_size_pairs(pairs),
    ).saturating_add(deep_size_lists(&graph.adj));
    (
        EdgeReachabilityAnalysis {
            variety_count,
            coarse_pair_count: coarse_pairs.len(),
            marked_edge_state_count: pairs.len(),
            marked_transition_count,
            marked_scc_count: sccs.len(),
            all_marked_edges_mutually_reachable,
            all_coarse_pairs_connected_via_good_paths: all_coarse_pairs_connected,
            first_unreachable_source_pair,
            first_unreachable_target_pair,
        },
        check_peak_bytes,
    )
}

// =============================================================================
// Marked null-points
// =============================================================================

/// The index of the first nonzero coordinate of `null` from `k` on, or 10 when
/// there is none.
pub open spec fn th_first_nonzero2(null: Seq<(int, int)>, k: nat) -> nat
    decreases 10 - k,
{
    if k >= 10 {
        10
    } else if null[k as int] != (0int, 0int) {
        k
    } else {
        th_first_nonzero2(null, k + 1)
    }
}

/// Remove the common projective scalar from a theta null-point: every
/// coordinate is divided by the first nonzero one.
///
/// Without this normalization, the same marked theta structure can reappear
/// with different common scalar factors, so a finite-state search may keep
/// producing duplicate states.
pub fn normalize_theta<const P: u32, const D: u32>(theta: Theta<Fp2<P, D>>) -> (r: Theta<Fp2<P, D>>)
    requires
        f2_field(P, D),
        th_first_nonzero2(f2_views(theta.null), 0) < 10,
    ensures
        f2_views(r.null) == Seq::new(
            10,
            |k: int| {
                let v = f2_views(theta.null);
                f2_mul(v[k], f2_inverse(v[th_first_nonzero2(v, 0) as int], dmod(D, P), P as int), dmod(D, P), P as int)
            },
        ),
{
    let ghost v = f2_views(theta.null);
    let ghost d = dmod(D, P);
    let ghost p = P as int;
    let mut k: usize = 0;
    while k < 10 && theta.null[k].is_zero()
        invariant
            k <= 10,
            v == f2_views(theta.null),
            th_first_nonzero2(v, 0) == th_first_nonzero2(v, k as nat),
            th_first_nonzero2(v, 0) < 10,
        decreases 10 - k,
    {
        k = k + 1;
    }
    if k >= 10 {
        proof {
            assert(false);
        }
        return theta;
    }
    let pivot = theta.null[k];
    pivot.reduced();
    proof {
        vstd::arithmetic::div_mod::lemma_mod_bound(D as int, p);
        if f2_norm(pivot@, d, p) == 0 {
            lemma_f2_norm_zero(pivot@, d, p);
        }
    }
    let pivot_inv = pivot.inv();
    let mut null = theta.null;
    let mut i: usize = 0;
    while i < 10
        invariant
            i <= 10,
            v == f2_views(theta.null),
            d == dmod(D, P),
            p == P as int,
            forall|j: int| 0 <= j < i ==> #[trigger] null[j]@ == f2_mul(v[j], pivot_inv@, d, p),
            forall|j: int| i <= j < 10 ==> #[trigger] null[j] == theta.null[j],
        decreases 10 - i,
    {
        assert(v[i as int] == theta.null[i as int]@);
        null[i] = null[i].mul(pivot_inv);
        i = i + 1;
    }
    proof {
        assert(pivot_inv@ == f2_inverse(v[th_first_nonzero2(v, 0) as int], d, p));
        assert(f2_views(null) =~= Seq::new(10, |j: int| f2_mul(v[j], f2_inverse(v[th_first_nonzero2(v, 0) as int], d, p), d, p)));
    }
    Theta { null }
}

/// Whether a surface is kept: always, or, with `only_jacobians`, when it is a
/// Jacobian (its null-point has no zero coordinate).
pub fn keep_surface<const P: u32, const D: u32>(theta: &Theta<Fp2<P, D>>, only_jacobians: bool) -> (r: bool)
    ensures
        r == (!only_jacobians || th_first_zero2(f2_views(theta.null), 0) == 10),
{
    proof {
        lemma_first_zero_bound(f2_views(theta.null), 0);
    }
    let split = match theta.find_split_index() {
        Some(_) => true,
        None => false,
    };
    !only_jacobians || !split
}

/// A marked directed isogeny `A -> B`.
///
/// `null` is the projectively normalized theta null-point on `B` carrying the
/// marking induced by `A -> B`. This marking determines which outgoing
/// isogenies from `B` are good extensions of the preceding isogeny.
#[derive(Copy, Clone, Debug, PartialEq, Eq, Hash)]
pub struct MarkedEdge<const P: u32, const D: u32> {
    pub source_id: usize,
    pub target_id: usize,
    pub null: [Fp2<P, D>; 10],
}

impl<const P: u32, const D: u32> View for MarkedEdge<P, D> {
    type V = (usize, usize, Seq<(int, int)>);

    /// The two surface ids and the values of the null-point.
    open spec fn view(&self) -> (usize, usize, Seq<(int, int)>) {
        (self.source_id, self.target_id, f2_views(self.null))
    }
}

/// No two states have the same view.
pub open spec fn distinct_states<const P: u32, const D: u32>(s: Seq<MarkedEdge<P, D>>) -> bool {
    forall|i: int, j: int| 0 <= i < j < s.len() ==> #[trigger] s[i]@ != #[trigger] s[j]@
}

impl<const P: u32, const D: u32> MarkedEdge<P, D> {
    /// The marked theta null-point on the target.
    pub fn theta(&self) -> (r: Theta<Fp2<P, D>>)
        ensures
            r.null == self.null,
    {
        Theta { null: self.null }
    }

    /// The coarse pair `(A, B)` of the surfaces joined.
    pub fn coarse_pair(&self) -> (r: (usize, usize))
        ensures
            r == (self.source_id, self.target_id),
    {
        (self.source_id, self.target_id)
    }

    /// Whether two states are the same marked isogeny.
    pub fn same_state(&self, other: &Self) -> (r: bool)
        ensures
            r == (self@ == other@),
    {
        if self.source_id != other.source_id || self.target_id != other.target_id {
            return false;
        }
        let mut k: usize = 0;
        while k < 10
            invariant
                k <= 10,
                forall|j: int| 0 <= j < k ==> #[trigger] self.null[j]@ == other.null[j]@,
            decreases 10 - k,
        {
            let a = self.null[k];
            let b = other.null[k];
            if a.c0.value() != b.c0.value() || a.c1.value() != b.c1.value() {
                proof {
                    assert(f2_views(self.null)[k as int] != f2_views(other.null)[k as int]);
                }
                return false;
            }
            k = k + 1;
        }
        proof {
            assert(f2_views(self.null) =~= f2_views(other.null));
        }
        true
    }
}

/// The id of `state` among the states seen so far. A state not seen before is
/// appended with a new id, an empty successor list and a place in the queue of
/// states to expand.
pub fn intern_state<const P: u32, const D: u32>(
    state: MarkedEdge<P, D>,
    states: &mut Vec<MarkedEdge<P, D>>,
    adjacency: &mut Vec<Vec<usize>>,
    queue: &mut VecDeque<usize>,
) -> (id: usize)
    requires
        old(adjacency).len() == old(states).len(),
        distinct_states(old(states)@),
        old(states).len() < usize::MAX,
    ensures
        final(adjacency).len() == final(states).len(),
        distinct_states(final(states)@),
        id < final(states).len(),
        final(states)@[id as int]@ == state@,
        (exists|i: int| 0 <= i < old(states).len() && #[trigger] old(states)@[i]@ == state@) ==> {
            &&& id < old(states).len()
            &&& final(states)@ == old(states)@
            &&& final(adjacency)@ == old(adjacency)@
            &&& final(queue)@ == old(queue)@
        },
        (forall|i: int| 0 <= i < old(states).len() ==> #[trigger] old(states)@[i]@ != state@) ==> {
            &&& id == old(states).len()
            &&& final(states)@ == old(states)@.push(state)
            &&& final(adjacency)@.subrange(0, id as int) == old(adjacency)@
            &&& final(adjacency)@[id as int]@ == Seq::<usize>::empty()
            &&& final(queue)@ == old(queue)@.push(id)
        },
{
    let mut i: usize = 0;
    while i < states.len()
        invariant
            i <= states.len(),
            states@ == old(states)@,
            adjacency@ == old(adjacency)@,
            queue@ == old(queue)@,
            old(adjacency).len() == old(states).len(),
            distinct_states(states@),
            forall|j: int| 0 <= j < i ==> #[trigger] states@[j]@ != state@,
        decreases states.len() - i,
    {
        if states[i].same_state(&state) {
            return i;
        }
        i = i + 1;
    }
    let id = states.len();
    states.push(state);
    adjacency.push(Vec::new());
    queue.push_back(id);
    proof {
        assert(adjacency@.subrange(0, id as int) =~= old(adjacency)@);
        assert forall|a: int, b: int| 0 <= a < b < states@.len() implies #[trigger] states@[a]@ != #[trigger] states@[b]@ by {
            if b < id {
                assert(states@[a] == old(states)@[a] && states@[b] == old(states)@[b]);
            } else {
                assert(states@[b] == state);
                assert(states@[a] == old(states)@[a]);
            }
        }
    }
    id
}

} // verus!
