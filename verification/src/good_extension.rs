//! The good-extension graph of a set of (2,2)-isogenies. Parallel isogenies
//! from one surface to another are merged into one node `(A0, A1)`, and a
//! transition `(A0, A1) -> (A1, A2)` is kept only when every merged isogeny
//! `A0 -> A1` has a good extension to `A2`: the successor sets of parallel
//! isogenies are intersected.
use crate::graph::{seqs_of, strictly_increasing, DirectedGraph};
use crate::reachability::{distinct_sorted_pairs, pair_lt, position_of, sorted_pairs};
use crate::utils::intersect_sorted_vectors_inplace;
use vstd::prelude::*;

verus! {

/// Every isogeny among the first `n` whose node is `key` has `w` among its
/// good extensions.
pub open spec fn retained_upto(keys: Seq<(usize, usize)>, nexts: Seq<Seq<usize>>, n: int, key: (usize, usize), w: usize) -> bool {
    forall|j: int| 0 <= j < n && #[trigger] keys[j] == key ==> nexts[j].contains(w)
}

/// Every isogeny whose node is `key` has `w` among its good extensions.
pub open spec fn retained(keys: Seq<(usize, usize)>, nexts: Seq<Seq<usize>>, key: (usize, usize), w: usize) -> bool {
    retained_upto(keys, nexts, keys.len() as int, key, w)
}

/// The distinct numbers of `v` in increasing order.
pub fn sorted_distinct(v: &Vec<usize>) -> (r: Vec<usize>)
    ensures
        strictly_increasing(r@),
        forall|x: usize| #[trigger] r@.contains(x) <==> v@.contains(x),
{
    let mut pairs: Vec<(usize, usize)> = Vec::new();
    let mut i: usize = 0;
    while i < v.len()
        invariant
            i <= v.len(),
            pairs@ == Seq::new(i as nat, |k: int| (v@[k], 0usize)),
        decreases v.len() - i,
    {
        pairs.push((v[i], 0));
        proof {
            assert(pairs@ =~= Seq::new(i as nat + 1, |k: int| (v@[k], 0usize)));
        }
        i = i + 1;
    }
    let cps = distinct_sorted_pairs(&pairs);
    proof {
        assert forall|t: int| 0 <= t < cps@.len() implies #[trigger] cps@[t].1 == 0 by {
            assert(cps@.contains(cps@[t]));
            let q = choose|q: int| 0 <= q < pairs@.len() && #[trigger] pairs@[q] == cps@[t];
        }
    }
    let mut r: Vec<usize> = Vec::new();
    let mut k: usize = 0;
    while k < cps.len()
        invariant
            k <= cps.len(),
            r@ == Seq::new(k as nat, |t: int| cps@[t].0),
        decreases cps.len() - k,
    {
        r.push(cps[k].0);
        proof {
            assert(r@ =~= Seq::new(k as nat + 1, |t: int| cps@[t].0));
        }
        k = k + 1;
    }
    proof {
        assert forall|a: int, b: int| 0 <= a < b < r@.len() implies #[trigger] r@[a] < #[trigger] r@[b] by {
            assert(pair_lt(cps@[a], cps@[b]));
        }
        assert forall|x: usize| #[trigger] r@.contains(x) <==> v@.contains(x) by {
            if r@.contains(x) {
                let t = choose|t: int| 0 <= t < r@.len() && #[trigger] r@[t] == x;
                assert(cps@[t] == (x, 0usize));
                assert(cps@.contains((x, 0usize)));
                let q = choose|q: int| 0 <= q < pairs@.len() && #[trigger] pairs@[q] == (x, 0usize);
                assert(v@[q] == x);
            }
            if v@.contains(x) {
                let q = choose|q: int| 0 <= q < v@.len() && #[trigger] v@[q] == x;
                assert(pairs@[q] == (x, 0usize));
                assert(pairs@.contains((x, 0usize)));
                assert(cps@.contains((x, 0usize)));
                let t = choose|t: int| 0 <= t < cps@.len() && #[trigger] cps@[t] == (x, 0usize);
                assert(r@[t] == x);
            }
        }
    }
    r
}

/// A copy of a list.
fn copy_list(v: &Vec<usize>) -> (r: Vec<usize>)
    ensures
        r@ == v@,
{
    let mut r: Vec<usize> = Vec::new();
    let mut k: usize = 0;
    while k < v.len()
        invariant
            k <= v.len(),
            r@ == v@.take(k as int),
        decreases v.len() - k,
    {
        r.push(v[k]);
        proof {
            assert(r@ =~= v@.take(k as int + 1));
        }
        k = k + 1;
    }
    proof {
        assert(v@.take(v.len() as int) =~= v@);
    }
    r
}

/// The distinct nodes of the isogenies, each with the good extensions that
/// all of its isogenies share, in increasing order.
pub(crate) fn merge_parallel(keys: &Vec<(usize, usize)>, nexts: &Vec<Vec<usize>>) -> (r: (Vec<(usize, usize)>, Vec<Vec<usize>>))
    requires
        keys.len() == nexts.len(),
    ensures
        r.0.len() == r.1.len(),
        forall|a: int, b: int| 0 <= a < b < r.0.len() ==> #[trigger] r.0@[a] != #[trigger] r.0@[b],
        forall|x: (usize, usize)| #[trigger] r.0@.contains(x) <==> keys@.contains(x),
        forall|k: int| 0 <= k < r.0.len() ==> strictly_increasing(#[trigger] r.1@[k]@),
        forall|k: int, w: usize|
            0 <= k < r.0.len() ==> (#[trigger] r.1@[k]@.contains(w) <==> retained(keys@, seqs_of(nexts@), r.0@[k], w)),
{
    let ghost ns = seqs_of(nexts@);
    let mut ukeys: Vec<(usize, usize)> = Vec::new();
    let mut usets: Vec<Vec<usize>> = Vec::new();
    let mut i: usize = 0;
    while i < keys.len()
        invariant
            keys.len() == nexts.len(),
            ns == seqs_of(nexts@),
            i <= keys.len(),
            ukeys.len() == usets.len(),
            forall|a: int, b: int| 0 <= a < b < ukeys.len() ==> #[trigger] ukeys@[a] != #[trigger] ukeys@[b],
            forall|x: (usize, usize)| #[trigger] ukeys@.contains(x) <==> keys@.take(i as int).contains(x),
            forall|k: int| 0 <= k < ukeys.len() ==> strictly_increasing(#[trigger] usets@[k]@),
            forall|k: int, w: usize|
                0 <= k < ukeys.len() ==> (#[trigger] usets@[k]@.contains(w) <==> retained_upto(keys@, ns, i as int, ukeys@[k], w)),
        decreases keys.len() - i,
    {
        let s = sorted_distinct(&nexts[i]);
        let key = keys[i];
        proof {
            assert(ns[i as int] == nexts@[i as int]@);
            assert(keys@.take(i as int + 1) =~= keys@.take(i as int).push(key));
        }
        let mut k: usize = 0;
        while k < ukeys.len() && !(ukeys[k].0 == key.0 && ukeys[k].1 == key.1)
            invariant
                k <= ukeys.len(),
                forall|t: int| 0 <= t < k ==> #[trigger] ukeys@[t] != key,
            decreases ukeys.len() - k,
        {
            k = k + 1;
        }
        if k < ukeys.len() {
            let ghost old_sets = usets@;
            let mut cur = copy_list(&usets[k]);
            intersect_sorted_vectors_inplace(&mut cur, s.as_slice());
            usets.set(k, cur);
            proof {
                assert forall|t: int, w: usize|
                    0 <= t < ukeys.len() implies (#[trigger] usets@[t]@.contains(w) <==> retained_upto(keys@, ns, i as int + 1, ukeys@[t], w)) by {
                    if t == k {
                        assert(ukeys@[t] == key);
                        if retained_upto(keys@, ns, i as int + 1, key, w) {
                            assert(keys@[i as int] == key);
                            assert(retained_upto(keys@, ns, i as int, key, w));
                        }
                    } else {
                        assert(usets@[t] == old_sets[t]);
                        assert(ukeys@[t] != key);
                        if retained_upto(keys@, ns, i as int, ukeys@[t], w) {
                            assert forall|j: int| 0 <= j < i + 1 && #[trigger] keys@[j] == ukeys@[t] implies ns[j].contains(w) by {
                                if j == i {
                                    assert(keys@[j] == key);
                                }
                            }
                        }
                    }
                }
            }
        } else {
            let ghost old_keys = ukeys@;
            let ghost old_sets = usets@;
            ukeys.push(key);
            usets.push(s);
            proof {
                assert(!old_keys.contains(key));
                assert(!keys@.take(i as int).contains(key));
                assert forall|a: int, b: int| 0 <= a < b < ukeys.len() implies #[trigger] ukeys@[a] != #[trigger] ukeys@[b] by {
                    if b == old_keys.len() {
                        assert(ukeys@[a] == old_keys[a]);
                    } else {
                        assert(ukeys@[a] == old_keys[a] && ukeys@[b] == old_keys[b]);
                    }
                }
                assert forall|x: (usize, usize)| #[trigger] ukeys@.contains(x) <==> keys@.take(i as int + 1).contains(x) by {
                    if ukeys@.contains(x) && x != key {
                        let q = choose|q: int| 0 <= q < ukeys@.len() && #[trigger] ukeys@[q] == x;
                        assert(old_keys[q] == x);
                        assert(old_keys.contains(x));
                        assert(keys@.take(i as int).contains(x));
                        let q2 = choose|q2: int| 0 <= q2 < i && #[trigger] keys@.take(i as int)[q2] == x;
                        assert(keys@.take(i as int + 1)[q2] == x);
                    }
                    if keys@.take(i as int + 1).contains(x) && x != key {
                        let q = choose|q: int| 0 <= q < i + 1 && #[trigger] keys@.take(i as int + 1)[q] == x;
                        assert(q != i);
                        assert(keys@.take(i as int)[q] == x);
                        assert(keys@.take(i as int).contains(x));
                        assert(old_keys.contains(x));
                        let q2 = choose|q2: int| 0 <= q2 < old_keys.len() && #[trigger] old_keys[q2] == x;
                        assert(ukeys@[q2] == x);
                    }
                    if x == key {
                        assert(ukeys@[old_keys.len() as int] == key);
                        assert(keys@.take(i as int + 1)[i as int] == key);
                    }
                }
                assert forall|t: int, w: usize|
                    0 <= t < ukeys.len() implies (#[trigger] usets@[t]@.contains(w) <==> retained_upto(keys@, ns, i as int + 1, ukeys@[t], w)) by {
                    if t == old_keys.len() {
                        assert(ukeys@[t] == key);
                        assert forall|j: int| 0 <= j < i && #[trigger] keys@[j] == key implies false by {
                            assert(keys@.take(i as int)[j] == key);
                        }
                        if retained_upto(keys@, ns, i as int + 1, key, w) {
                            assert(keys@[i as int] == key);
                        }
                        if usets@[t]@.contains(w) {
                            assert forall|j: int| 0 <= j < i + 1 && #[trigger] keys@[j] == key implies ns[j].contains(w) by {
                                if j < i {
                                    assert(keys@.take(i as int)[j] == key);
                                }
                            }
                        }
                    } else {
                        assert(usets@[t] == old_sets[t]);
                        assert(ukeys@[t] == old_keys[t]);
                        assert(ukeys@[t] != key) by {
                            assert(old_keys.contains(ukeys@[t]));
                        }
                        if retained_upto(keys@, ns, i as int, ukeys@[t], w) {
                            assert forall|j: int| 0 <= j < i + 1 && #[trigger] keys@[j] == ukeys@[t] implies ns[j].contains(w) by {
                                if j == i {
                                    assert(keys@[j] == key);
                                }
                            }
                        }
                    }
                }
            }
        }
        i = i + 1;
    }
    proof {
        assert(keys@.take(keys.len() as int) =~= keys@);
    }
    (ukeys, usets)
}

/// A node occurs once in a sorted node list.
proof fn lemma_sorted_unique(nl: Seq<(usize, usize)>, b1: int, b2: int)
    requires
        sorted_pairs(nl),
        0 <= b1 < nl.len(),
        0 <= b2 < nl.len(),
        nl[b1] == nl[b2],
    ensures
        b1 == b2,
{
    if b1 < b2 {
        assert(pair_lt(nl[b1], nl[b2]));
    } else if b2 < b1 {
        assert(pair_lt(nl[b2], nl[b1]));
    }
}

/// Nodes `(v, w1)` and `(v, w2)` of a sorted node list come in the order of
/// `w1` and `w2`.
proof fn lemma_sorted_second(nl: Seq<(usize, usize)>, b1: int, b2: int)
    requires
        sorted_pairs(nl),
        0 <= b1 < nl.len(),
        0 <= b2 < nl.len(),
        nl[b1].0 == nl[b2].0,
        nl[b1].1 < nl[b2].1,
    ensures
        b1 < b2,
{
    if b2 < b1 {
        assert(pair_lt(nl[b2], nl[b1]));
    }
}

/// The row of the node `node`, built from its merged good extensions `set`,
/// is increasing and holds exactly the nodes `(node.1, w)` with `w` retained.
proof fn lemma_row(
    nl: Seq<(usize, usize)>,
    set: Seq<usize>,
    row: Seq<usize>,
    keys: Seq<(usize, usize)>,
    ns: Seq<Seq<usize>>,
    node: (usize, usize),
)
    requires
        sorted_pairs(nl),
        strictly_increasing(set),
        row.len() == set.len(),
        forall|q: int| 0 <= q < row.len() ==> #[trigger] row[q] < nl.len() && nl[row[q] as int] == (node.1, set[q]),
        forall|w: usize| #[trigger] set.contains(w) <==> retained(keys, ns, node, w),
    ensures
        strictly_increasing(row),
        forall|b: usize|
            #[trigger] row.contains(b) <==> (b < nl.len() && nl[b as int].0 == node.1 && retained(keys, ns, node, nl[b as int].1)),
{
    assert forall|q1: int, q2: int| 0 <= q1 < q2 < row.len() implies #[trigger] row[q1] < #[trigger] row[q2] by {
        assert(set[q1] < set[q2]);
        lemma_sorted_second(nl, row[q1] as int, row[q2] as int);
    }
    assert forall|b: usize|
        #[trigger] row.contains(b) <==> (b < nl.len() && nl[b as int].0 == node.1 && retained(keys, ns, node, nl[b as int].1)) by {
        if row.contains(b) {
            let q = choose|q: int| 0 <= q < row.len() && #[trigger] row[q] == b;
            assert(set.contains(set[q]));
        }
        if b < nl.len() && nl[b as int].0 == node.1 && retained(keys, ns, node, nl[b as int].1) {
            let w = nl[b as int].1;
            assert(set.contains(w));
            let q = choose|q: int| 0 <= q < set.len() && #[trigger] set[q] == w;
            assert(nl[row[q] as int] == nl[b as int]);
            lemma_sorted_unique(nl, row[q] as int, b as int);
            assert(row[q] == b);
        }
    }
}

/// The merged good-extension graph of the isogenies `keys[i] = (A0, A1)` with
/// the good extensions `nexts[i]` (the surfaces `A2` reached from `A1`): its
/// nodes are the distinct pairs `(A0, A1)` in increasing order, and the node
/// `(A0, A1)` has an edge to `(A1, A2)` exactly when every isogeny from `A0`
/// to `A1` has `A2` among its good extensions. Each adjacency list is
/// increasing. Every retained transition must lead to a node that occurs.
pub fn build_good_extension_graph(keys: &Vec<(usize, usize)>, nexts: &Vec<Vec<usize>>) -> (r: (Vec<(usize, usize)>, DirectedGraph))
    requires
        keys.len() == nexts.len(),
        forall|i: int, w: usize|
            0 <= i < keys.len() && #[trigger] retained(keys@, seqs_of(nexts@), keys@[i], w) ==> keys@.contains((keys@[i].1, w)),
    ensures
        sorted_pairs(r.0@),
        forall|x: (usize, usize)| #[trigger] r.0@.contains(x) <==> keys@.contains(x),
        r.1.wf(),
        r.1.n == r.0.len(),
        forall|a: int| 0 <= a < r.0.len() ==> strictly_increasing(#[trigger] r.1.adj@[a]@),
        forall|a: int, b: usize|
            0 <= a < r.0.len() ==> (#[trigger] r.1.adj@[a]@.contains(b) <==> (b < r.0.len() && r.0@[b as int].0 == r.0@[a].1
                && retained(keys@, seqs_of(nexts@), r.0@[a], r.0@[b as int].1))),
{
    let ghost ns = seqs_of(nexts@);
    let (ukeys, usets) = merge_parallel(keys, nexts);
    let node_list = distinct_sorted_pairs(&ukeys);
    let mut adj: Vec<Vec<usize>> = Vec::new();
    let mut a: usize = 0;
    while a < node_list.len()
        invariant
            keys.len() == nexts.len(),
            ns == seqs_of(nexts@),
            a <= node_list.len(),
            adj.len() == a,
            sorted_pairs(node_list@),
            forall|x: (usize, usize)| #[trigger] node_list@.contains(x) <==> ukeys@.contains(x),
            ukeys.len() == usets.len(),
            forall|x: (usize, usize)| #[trigger] ukeys@.contains(x) <==> keys@.contains(x),
            forall|k: int| 0 <= k < ukeys.len() ==> strictly_increasing(#[trigger] usets@[k]@),
            forall|k: int, w: usize|
                0 <= k < ukeys.len() ==> (#[trigger] usets@[k]@.contains(w) <==> retained(keys@, ns, ukeys@[k], w)),
            forall|i: int, w: usize|
                0 <= i < keys.len() && #[trigger] retained(keys@, ns, keys@[i], w) ==> keys@.contains((keys@[i].1, w)),
            forall|t: int| 0 <= t < a ==> strictly_increasing(#[trigger] adj@[t]@),
            forall|t: int, b: usize|
                0 <= t < a ==> (#[trigger] adj@[t]@.contains(b) <==> (b < node_list.len() && node_list@[b as int].0 == node_list@[t].1
                    && retained(keys@, ns, node_list@[t], node_list@[b as int].1))),
            forall|t: int, q: int| 0 <= t < a && 0 <= q < adj@[t].len() ==> #[trigger] adj@[t]@[q] < node_list.len(),
        decreases node_list.len() - a,
    {
        let node = node_list[a];
        proof {
            assert(node_list@.contains(node));
        }
        let k = position_of(&ukeys, node);
        let set = &usets[k];
        let ghost i0 = choose|i: int| 0 <= i < keys.len() && #[trigger] keys@[i] == node;
        proof {
            assert(ukeys@.contains(node));
            assert(keys@.contains(node));
        }
        let mut row: Vec<usize> = Vec::new();
        let mut t: usize = 0;
        while t < set.len()
            invariant
                t <= set.len(),
                row.len() == t,
                set@ == usets@[k as int]@,
                0 <= i0 < keys.len(),
                keys@[i0] == node,
                forall|x: (usize, usize)| #[trigger] node_list@.contains(x) <==> ukeys@.contains(x),
                forall|x: (usize, usize)| #[trigger] ukeys@.contains(x) <==> keys@.contains(x),
                forall|w: usize| #[trigger] set@.contains(w) <==> retained(keys@, ns, node, w),
                forall|i: int, w: usize|
                    0 <= i < keys.len() && #[trigger] retained(keys@, ns, keys@[i], w) ==> keys@.contains((keys@[i].1, w)),
                forall|q: int| 0 <= q < t ==> #[trigger] row@[q] < node_list.len() && node_list@[row@[q] as int] == (node.1, set@[q]),
            decreases set.len() - t,
        {
            let w = set[t];
            proof {
                assert(set@.contains(w));
                assert(retained(keys@, ns, keys@[i0], w));
                assert(keys@.contains((node.1, w)));
                assert(ukeys@.contains((node.1, w)));
                assert(node_list@.contains((node.1, w)));
            }
            let to = position_of(&node_list, (node.1, w));
            row.push(to);
            t = t + 1;
        }
        proof {
            lemma_row(node_list@, set@, row@, keys@, ns, node);
            assert forall|q: int| 0 <= q < row@.len() implies #[trigger] row@[q] < node_list.len() by {}
        }
        let ghost old_adj = adj@;
        adj.push(row);
        proof {
            assert forall|t2: int, b: usize| 0 <= t2 < a + 1 implies (#[trigger] adj@[t2]@.contains(b) <==> (b < node_list.len()
                && node_list@[b as int].0 == node_list@[t2].1 && retained(keys@, ns, node_list@[t2], node_list@[b as int].1))) by {
                if t2 < a {
                    assert(adj@[t2] == old_adj[t2]);
                }
            }
            assert forall|t2: int| 0 <= t2 < a + 1 implies strictly_increasing(#[trigger] adj@[t2]@) by {
                if t2 < a {
                    assert(adj@[t2] == old_adj[t2]);
                }
            }
            assert forall|t2: int, q: int| 0 <= t2 < a + 1 && 0 <= q < adj@[t2].len() implies #[trigger] adj@[t2]@[q] < node_list.len() by {
                if t2 < a {
                    assert(adj@[t2] == old_adj[t2]);
                }
            }
        }
        a = a + 1;
    }
    let g = DirectedGraph { n: node_list.len(), adj };
    proof {
        assert forall|u: int, q: int| 0 <= u < g.n && 0 <= q < g.adj@[u]@.len() implies #[trigger] g.adj@[u]@[q] < g.n by {
            assert(g.adj@[u]@[q] < node_list.len());
        }
        assert forall|x: (usize, usize)| #[trigger] node_list@.contains(x) <==> keys@.contains(x) by {
            if node_list@.contains(x) {
                assert(ukeys@.contains(x));
            }
            if keys@.contains(x) {
                assert(ukeys@.contains(x));
            }
        }
    }
    (node_list, g)
}

} // verus!
