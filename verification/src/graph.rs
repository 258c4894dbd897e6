//! Directed graph structure and algorithms (SCC decomposition)
use vstd::prelude::*;
use vstd::set_lib::{lemma_int_range, lemma_len_subset, set_int_range};
use deepsize::DeepSizeOf;

verus! {

/// Directed graph structure
pub struct DirectedGraph {
    pub n: usize,
    pub adj: Vec<Vec<usize>>,  // Successors: u -> v
}

/// The lists of a vector of vectors, as sequences.
pub open spec fn seqs_of(v: Seq<Vec<usize>>) -> Seq<Seq<usize>> {
    v.map_values(|x: Vec<usize>| x@)
}

/// `v` occurs in one of the lists.
pub open spec fn lists_contain(comps: Seq<Seq<usize>>, v: int) -> bool {
    exists|i: int, j: int| 0 <= i < comps.len() && 0 <= j < comps[i].len() && #[trigger] comps[i][j] == v
}

impl DirectedGraph {
    /// `n` vertices, each with its successors below `n`.
    pub open spec fn wf(&self) -> bool {
        &&& self.n == self.adj@.len()
        &&& forall|u: int, k: int|
            0 <= u < self.n && 0 <= k < self.adj@[u]@.len() ==> #[trigger] self.adj@[u]@[k]
                < self.n
    }

    /// Number of successors of `u`.
    pub open spec fn deg(&self, u: int) -> int {
        self.adj@[u]@.len() as int
    }

    /// The `k`-th successor of `u`.
    pub open spec fn succ(&self, u: int, k: int) -> int {
        self.adj@[u]@[k] as int
    }

    /// There is an edge `u -> v`.
    pub open spec fn edge(&self, u: int, v: int) -> bool {
        0 <= u < self.n && exists|k: int| 0 <= k < self.deg(u) && #[trigger] self.succ(u, k) == v
    }

    /// `p` is a nonempty walk along edges.
    pub open spec fn is_path(&self, p: Seq<int>) -> bool {
        &&& p.len() > 0
        &&& forall|i: int| 0 <= i < p.len() ==> 0 <= #[trigger] p[i] < self.n
        &&& forall|i: int| 0 <= i < p.len() - 1 ==> #[trigger] self.edge(p[i], p[i + 1])
    }

    /// `v` can be reached from `u` along edges (every vertex reaches itself).
    pub open spec fn reaches(&self, u: int, v: int) -> bool {
        exists|p: Seq<int>| #[trigger] self.is_path(p) && p[0] == u && p.last() == v
    }

    /// `comps` lists the strongly connected components of the graph, each once,
    /// in topological order: every vertex lies in exactly one list, two vertices
    /// share a list exactly when each reaches the other, and every edge leads
    /// to the same list or a later one.
    pub open spec fn is_scc_decomposition(&self, comps: Seq<Seq<usize>>) -> bool {
        &&& forall|i: int| 0 <= i < comps.len() ==> #[trigger] comps[i].len() > 0
        &&& forall|i: int, j: int|
            0 <= i < comps.len() && 0 <= j < comps[i].len() ==> #[trigger] comps[i][j] < self.n
        &&& forall|v: int| 0 <= v < self.n ==> #[trigger] lists_contain(comps, v)
        &&& forall|i1: int, j1: int, i2: int, j2: int|
            0 <= i1 < comps.len() && 0 <= j1 < comps[i1].len() && 0 <= i2 < comps.len() && 0
                <= j2 < comps[i2].len() && #[trigger] comps[i1][j1] == #[trigger] comps[i2][j2]
                ==> i1 == i2 && j1 == j2
        &&& forall|i1: int, j1: int, i2: int, j2: int|
            0 <= i1 < comps.len() && 0 <= j1 < comps[i1].len() && 0 <= i2 < comps.len() && 0
                <= j2 < comps[i2].len() ==> ((self.reaches(
                #[trigger] comps[i1][j1] as int,
                #[trigger] comps[i2][j2] as int,
            ) && self.reaches(comps[i2][j2] as int, comps[i1][j1] as int)) <==> i1 == i2)
        &&& forall|i1: int, j1: int, i2: int, j2: int|
            0 <= i1 < comps.len() && 0 <= j1 < comps[i1].len() && 0 <= i2 < comps.len() && 0
                <= j2 < comps[i2].len() && self.edge(
                #[trigger] comps[i1][j1] as int,
                #[trigger] comps[i2][j2] as int,
            ) ==> i1 <= i2
    }

    /// The strongly connected components do not depend on how they are found:
    /// every component of one decomposition is, as a set of vertices, a
    /// component of any other. Only their order may differ.
    pub proof fn lemma_scc_components_unique(&self, s1: Seq<Seq<usize>>, s2: Seq<Seq<usize>>, i1: int)
        requires
            self.is_scc_decomposition(s1),
            self.is_scc_decomposition(s2),
            0 <= i1 < s1.len(),
        ensures
            exists|i2: int|
                #![trigger s2[i2]]
                0 <= i2 < s2.len() && forall|v: usize| #[trigger] s1[i1].contains(v) <==> s2[i2].contains(v),
    {
        let v0 = s1[i1][0];
        assert(lists_contain(s2, v0 as int));
        let (i2, j2) = choose|i: int, j: int| 0 <= i < s2.len() && 0 <= j < s2[i].len() && #[trigger] s2[i][j] == v0 as int;
        assert forall|v: usize| #[trigger] s1[i1].contains(v) <==> s2[i2].contains(v) by {
            if s1[i1].contains(v) {
                let j = choose|j: int| 0 <= j < s1[i1].len() && #[trigger] s1[i1][j] == v;
                assert(self.reaches(s1[i1][0] as int, s1[i1][j] as int) && self.reaches(s1[i1][j] as int, s1[i1][0] as int));
                assert(lists_contain(s2, v as int));
                let (i3, j3) = choose|i: int, j: int| 0 <= i < s2.len() && 0 <= j < s2[i].len() && #[trigger] s2[i][j] == v as int;
                assert(self.reaches(s2[i2][j2] as int, s2[i3][j3] as int) && self.reaches(s2[i3][j3] as int, s2[i2][j2] as int));
                assert(i3 == i2);
                assert(s2[i2][j3] == v);
            }
            if s2[i2].contains(v) {
                let j = choose|j: int| 0 <= j < s2[i2].len() && #[trigger] s2[i2][j] == v;
                assert(self.reaches(s2[i2][j2] as int, s2[i2][j] as int) && self.reaches(s2[i2][j] as int, s2[i2][j2] as int));
                assert(lists_contain(s1, v as int));
                let (i3, j3) = choose|i: int, j: int| 0 <= i < s1.len() && 0 <= j < s1[i].len() && #[trigger] s1[i][j] == v as int;
                assert(self.reaches(s1[i1][0] as int, s1[i3][j3] as int) && self.reaches(s1[i3][j3] as int, s1[i1][0] as int));
                assert(i3 == i1);
                assert(s1[i1][j3] == v);
            }
        }
    }

    /// Every vertex reaches itself.
    pub proof fn lemma_reaches_refl(&self, u: int)
        requires
            0 <= u < self.n,
        ensures
            self.reaches(u, u),
    {
        let p = seq![u];
        assert(self.is_path(p));
    }

    /// The `k`-th successor of `u` is joined to `u` by an edge.
    pub proof fn lemma_edge_succ(&self, u: int, k: int)
        requires
            0 <= u < self.n,
            0 <= k < self.deg(u),
        ensures
            self.edge(u, self.succ(u, k)),
    {
    }

    /// Reachability extends along an edge.
    pub proof fn lemma_reaches_step(&self, u: int, v: int, w: int)
        requires
            self.wf(),
            self.reaches(u, v),
            self.edge(v, w),
        ensures
            self.reaches(u, w),
    {
        let p = choose|p: Seq<int>| #[trigger] self.is_path(p) && p[0] == u && p.last() == v;
        let k = choose|k: int| 0 <= k < self.deg(v) && #[trigger] self.succ(v, k) == w;
        let q = p.push(w);
        assert forall|i: int| 0 <= i < q.len() - 1 implies #[trigger] self.edge(q[i], q[i + 1]) by {
            if i < p.len() - 1 {
                assert(self.edge(p[i], p[i + 1]));
            }
        }
        assert(self.is_path(q));
    }

    /// Reachability is transitive.
    pub proof fn lemma_reaches_trans(&self, u: int, v: int, w: int)
        requires
            self.wf(),
            self.reaches(u, v),
            self.reaches(v, w),
        ensures
            self.reaches(u, w),
    {
        let p1 = choose|p: Seq<int>| #[trigger] self.is_path(p) && p[0] == u && p.last() == v;
        let p2 = choose|p: Seq<int>| #[trigger] self.is_path(p) && p[0] == v && p.last() == w;
        let q = p1 + p2.drop_first();
        assert forall|i: int| 0 <= i < q.len() implies 0 <= #[trigger] q[i] < self.n by {
            if i < p1.len() {
                assert(q[i] == p1[i]);
            } else {
                assert(q[i] == p2[i - p1.len() + 1]);
            }
        }
        assert forall|i: int| 0 <= i < q.len() - 1 implies #[trigger] self.edge(q[i], q[i + 1]) by {
            if i < p1.len() - 1 {
                assert(q[i] == p1[i] && q[i + 1] == p1[i + 1]);
                assert(self.edge(p1[i], p1[i + 1]));
            } else {
                let j = i - p1.len() + 1;
                assert(q[i] == p2[j]) by {
                    if i == p1.len() - 1 {
                        assert(q[i] == p1.last());
                    }
                }
                assert(q[i + 1] == p2[j + 1]);
                assert(self.edge(p2[j], p2[j + 1]));
            }
        }
        assert(self.is_path(q));
        if p2.len() == 1 {
            assert(q.last() == p1.last());
        } else {
            assert(q.last() == p2.last());
        }
    }

    /// Construct graph from adjacency list
    pub fn from_adj(adj: Vec<Vec<usize>>) -> (r: Self)
        ensures
            r.n == adj.len(),
            r.adj@ == adj@,
    {
        let n = adj.len();
        Self { n, adj }
    }
}



// -----------------------------------------------------------------------------
// The state of Tarjan's algorithm and its invariant
// -----------------------------------------------------------------------------

/// `v` has been numbered by the depth-first search.
pub open spec fn visited(ord: Seq<Option<usize>>, v: int) -> bool {
    ord[v] is Some
}

/// The depth-first number of a visited vertex.
pub open spec fn num(ord: Seq<Option<usize>>, v: int) -> int {
    ord[v]->0 as int
}

/// `v` was numbered after the `t`-th active vertex and before the next one.
pub open spec fn in_gap(ord: Seq<Option<usize>>, path: Seq<(usize, usize)>, t: int, v: int) -> bool {
    &&& num(ord, path[t].0 as int) < num(ord, v)
    &&& (t == path.len() - 1 || num(ord, v) < num(ord, path[t + 1].0 as int))
}

impl DirectedGraph {
    /// An edge `v -> w` already examined from `v`: `w` is numbered and either
    /// already in a component or on the stack no lower than `low[v]`.
    pub open spec fn edge_done(
        &self,
        ord: Seq<Option<usize>>,
        low: Seq<usize>,
        on: Seq<bool>,
        cid: Seq<int>,
        v: int,
        w: int,
    ) -> bool {
        &&& visited(ord, w)
        &&& (cid[w] >= 0 || (on[w] && low[v] <= num(ord, w)))
    }

    /// `order` lists the numbered vertices by their numbers `0 .. now`.
    #[verifier::opaque]
    pub open spec fn inv_num(&self, ord: Seq<Option<usize>>, now: int, order: Seq<int>) -> bool {
        &&& ord.len() == self.n
        &&& 0 <= now <= self.n
        &&& order.len() == now
        &&& forall|k: int|
            0 <= k < now ==> 0 <= #[trigger] order[k] < self.n && visited(ord, order[k]) && num(
                ord,
                order[k],
            ) == k
        &&& forall|v: int|
            0 <= v < self.n && #[trigger] visited(ord, v) ==> num(ord, v) < now && order[num(
                ord,
                v,
            )] == v
    }

    /// Component ids and stack membership agree with the numbering.
    #[verifier::opaque]
    pub open spec fn inv_cid(
        &self,
        ord: Seq<Option<usize>>,
        low: Seq<usize>,
        on: Seq<bool>,
        cid: Seq<int>,
        ncomp: int,
    ) -> bool {
        &&& low.len() == self.n
        &&& on.len() == self.n
        &&& cid.len() == self.n
        &&& forall|v: int| 0 <= v < self.n ==> -1 <= #[trigger] cid[v] < ncomp
        &&& forall|v: int| 0 <= v < self.n && #[trigger] cid[v] >= 0 ==> visited(ord, v)
        &&& forall|v: int|
            0 <= v < self.n ==> (#[trigger] on[v] <==> (visited(ord, v) && cid[v] == -1))
    }

    /// The stack holds the numbered vertices without a component, by number.
    #[verifier::opaque]
    pub open spec fn inv_stack(&self, ord: Seq<Option<usize>>, stack: Seq<usize>, on: Seq<bool>) -> bool {
        &&& forall|i: int|
            0 <= i < stack.len() ==> #[trigger] stack[i] < self.n && on[stack[i] as int]
        &&& forall|i: int, j: int|
            0 <= i < j < stack.len() ==> num(ord, #[trigger] stack[i] as int) < num(
                ord,
                #[trigger] stack[j] as int,
            )
        &&& forall|v: int| 0 <= v < self.n && #[trigger] on[v] ==> stack.contains(v as usize)
    }

    /// The active frames form a path of the search tree, numbered in order;
    /// `fin` marks the numbered vertices that are no longer active and `pidx`
    /// gives the frame of each active one; `enter` is the next vertex to number.
    #[verifier::opaque]
    pub open spec fn inv_frames(
        &self,
        ord: Seq<Option<usize>>,
        on: Seq<bool>,
        fin: Seq<bool>,
        pidx: Seq<int>,
        path: Seq<(usize, usize)>,
        enter: Option<usize>,
    ) -> bool {
        &&& fin.len() == self.n
        &&& pidx.len() == self.n
        &&& forall|t: int|
            0 <= t < path.len() ==> (#[trigger] path[t]).0 < self.n && on[path[t].0 as int]
                && !fin[path[t].0 as int] && path[t].1 <= self.deg(path[t].0 as int) && pidx[path[t].0 as int] == t
        &&& forall|t: int|
            0 <= t < path.len() - 1 ==> (#[trigger] path[t]).1 >= 1 && self.succ(
                path[t].0 as int,
                path[t].1 - 1,
            ) == path[t + 1].0
        &&& forall|t1: int, t2: int|
            0 <= t1 < t2 < path.len() ==> num(ord, (#[trigger] path[t1]).0 as int) < num(
                ord,
                (#[trigger] path[t2]).0 as int,
            )
        &&& forall|v: int|
            0 <= v < self.n && visited(ord, v) && !#[trigger] fin[v] ==> 0 <= pidx[v] < path.len()
                && path[pidx[v]].0 == v
        &&& (enter matches Some(e) ==> {
            &&& e < self.n
            &&& !visited(ord, e as int)
            &&& (path.len() > 0 ==> path.last().1 >= 1 && self.succ(
                path.last().0 as int,
                path.last().1 - 1,
            ) == e)
        })
    }

    /// Each active vertex reaches every vertex numbered after it.
    #[verifier::opaque]
    pub open spec fn inv_reach(&self, ord: Seq<Option<usize>>, path: Seq<(usize, usize)>) -> bool {
        forall|t: int, v: int|
            0 <= t < path.len() && 0 <= v < self.n && visited(ord, v) && num(ord, v) >= num(
                ord,
                (#[trigger] path[t]).0 as int,
            ) ==> #[trigger] self.reaches(path[t].0 as int, v)
    }

    /// Nothing on the stack precedes the root of the current search tree, and
    /// between trees the stack is empty.
    #[verifier::opaque]
    pub open spec fn inv_bottom(
        &self,
        ord: Seq<Option<usize>>,
        on: Seq<bool>,
        path: Seq<(usize, usize)>,
    ) -> bool {
        &&& path.len() > 0 ==> forall|v: int|
            0 <= v < self.n && #[trigger] on[v] ==> num(ord, v) >= num(ord, path[0].0 as int)
        &&& path.len() == 0 ==> forall|v: int| 0 <= v < self.n ==> !#[trigger] on[v]
    }

    /// Each stacked vertex reaches the stacked vertex numbered `low[v] <= num(v)`.
    #[verifier::opaque]
    pub open spec fn inv_low(
        &self,
        ord: Seq<Option<usize>>,
        low: Seq<usize>,
        on: Seq<bool>,
        order: Seq<int>,
    ) -> bool {
        forall|v: int|
            0 <= v < self.n && #[trigger] on[v] ==> low[v] <= num(ord, v) && on[order[low[v] as int]]
                && self.reaches(v, order[low[v] as int])
    }

    /// Finished stacked vertices have `low[v] < num(v)`, and their `low` bounds
    /// that of the active vertex numbered just before them.
    #[verifier::opaque]
    pub open spec fn inv_fin(
        &self,
        ord: Seq<Option<usize>>,
        low: Seq<usize>,
        on: Seq<bool>,
        fin: Seq<bool>,
        path: Seq<(usize, usize)>,
    ) -> bool {
        &&& forall|v: int| 0 <= v < self.n && #[trigger] on[v] && fin[v] ==> low[v] < num(ord, v)
        &&& forall|t: int, v: int|
            0 <= t < path.len() && 0 <= v < self.n && #[trigger] on[v] && fin[v]
                && #[trigger] in_gap(ord, path, t, v) ==> low[path[t].0 as int] <= low[v]
    }

    /// Edges out of components lead to earlier or equal components.
    #[verifier::opaque]
    pub open spec fn inv_edges_comp(&self, cid: Seq<int>) -> bool {
        forall|v: int, k: int|
            0 <= v < self.n && 0 <= k < self.deg(v) && cid[v] >= 0 ==> cid[#[trigger] self.succ(
                v,
                k,
            )] >= 0 && cid[self.succ(v, k)] <= cid[v]
    }

    /// All edges of finished stacked vertices have been examined.
    #[verifier::opaque]
    pub open spec fn inv_edges_fin(
        &self,
        ord: Seq<Option<usize>>,
        low: Seq<usize>,
        on: Seq<bool>,
        cid: Seq<int>,
        fin: Seq<bool>,
    ) -> bool {
        forall|v: int, k: int|
            0 <= v < self.n && 0 <= k < self.deg(v) && on[v] && fin[v] ==> self.edge_done(
                ord,
                low,
                on,
                cid,
                v,
                #[trigger] self.succ(v, k),
            )
    }

    /// The edges of active vertices before their next child have been examined,
    /// except the one to the vertex about to be entered.
    #[verifier::opaque]
    pub open spec fn inv_edges_path(
        &self,
        ord: Seq<Option<usize>>,
        low: Seq<usize>,
        on: Seq<bool>,
        cid: Seq<int>,
        path: Seq<(usize, usize)>,
        enter: Option<usize>,
    ) -> bool {
        forall|t: int, k: int|
            0 <= t < path.len() && 0 <= k < (#[trigger] path[t]).1 ==> ((t == path.len() - 1 && k
                == path[t].1 - 1 && enter is Some) || self.edge_done(
                ord,
                low,
                on,
                cid,
                path[t].0 as int,
                #[trigger] self.succ(path[t].0 as int, k),
            ))
    }

    /// Examined edges: from components they lead to earlier or equal components,
    /// from stacked vertices they satisfy `edge_done`.
    pub open spec fn inv_edges(
        &self,
        ord: Seq<Option<usize>>,
        low: Seq<usize>,
        on: Seq<bool>,
        cid: Seq<int>,
        fin: Seq<bool>,
        path: Seq<(usize, usize)>,
        enter: Option<usize>,
    ) -> bool {
        &&& self.inv_edges_comp(cid)
        &&& self.inv_edges_fin(ord, low, on, cid, fin)
        &&& self.inv_edges_path(ord, low, on, cid, path, enter)
    }

    /// The components found so far: nonempty, without repeats, matching `cid`,
    /// and strongly connected.
    #[verifier::opaque]
    pub open spec fn inv_comps(&self, cid: Seq<int>, comps: Seq<Seq<usize>>) -> bool {
        &&& forall|i: int| 0 <= i < comps.len() ==> #[trigger] comps[i].len() > 0
        &&& forall|i: int, j: int|
            0 <= i < comps.len() && 0 <= j < comps[i].len() ==> #[trigger] comps[i][j] < self.n
                && cid[comps[i][j] as int] == i
        &&& forall|i: int, j1: int, j2: int|
            0 <= i < comps.len() && 0 <= j1 < comps[i].len() && 0 <= j2 < comps[i].len()
                && #[trigger] comps[i][j1] == #[trigger] comps[i][j2] ==> j1 == j2
        &&& forall|v: int|
            0 <= v < self.n && #[trigger] cid[v] >= 0 ==> comps[cid[v]].contains(v as usize)
        &&& forall|v: int, w: int|
            0 <= v < self.n && 0 <= w < self.n && #[trigger] cid[v] >= 0 && cid[v]
                == #[trigger] cid[w] ==> self.reaches(v, w)
    }

    /// The full invariant of the search.
    pub open spec fn tarjan_inv(
        &self,
        ord: Seq<Option<usize>>,
        low: Seq<usize>,
        now: int,
        stack: Seq<usize>,
        on: Seq<bool>,
        cid: Seq<int>,
        order: Seq<int>,
        comps: Seq<Seq<usize>>,
        fin: Seq<bool>,
        pidx: Seq<int>,
        path: Seq<(usize, usize)>,
        enter: Option<usize>,
    ) -> bool {
        &&& self.wf()
        &&& self.inv_num(ord, now, order)
        &&& self.inv_cid(ord, low, on, cid, comps.len() as int)
        &&& self.inv_stack(ord, stack, on)
        &&& self.inv_frames(ord, on, fin, pidx, path, enter)
        &&& self.inv_reach(ord, path)
        &&& self.inv_bottom(ord, on, path)
        &&& self.inv_low(ord, low, on, order)
        &&& self.inv_fin(ord, low, on, fin, path)
        &&& self.inv_edges(ord, low, on, cid, fin, path, enter)
        &&& self.inv_comps(cid, comps)
    }

    /// While some vertex is unnumbered, fewer than `n` vertices are numbered.
    proof fn lemma_numbered_below_n(&self, ord: Seq<Option<usize>>, now: int, order: Seq<int>, u: int)
        requires
            self.inv_num(ord, now, order),
            0 <= u < self.n,
            !visited(ord, u),
        ensures
            now < self.n,
    {
        reveal(DirectedGraph::inv_num);
        assert(order.no_duplicates()) by {
            assert forall|i: int, j: int|
                0 <= i < order.len() && 0 <= j < order.len() && i != j implies order[i]
                != order[j] by {
                assert(num(ord, order[i]) == i);
                assert(num(ord, order[j]) == j);
            }
        }
        order.unique_seq_to_set();
        let range = set_int_range(0, self.n as int).remove(u);
        lemma_int_range(0, self.n as int);
        assert(order.to_set().subset_of(range)) by {
            assert forall|x: int| order.to_set().contains(x) implies range.contains(x) by {
                let k = choose|k: int| 0 <= k < order.len() && order[k] == x;
                assert(0 <= order[k] < self.n);
                assert(visited(ord, order[k]));
            }
        }
        lemma_len_subset(order.to_set(), range);
    }
}

impl DirectedGraph {
    proof fn lemma_visit_num_cid(
        &self,
        ord: Seq<Option<usize>>,
        low: Seq<usize>,
        now: int,
        stack: Seq<usize>,
        on: Seq<bool>,
        cid: Seq<int>,
        order: Seq<int>,
        ncomp: int,
        fin: Seq<bool>,
        pidx: Seq<int>,
        path: Seq<(usize, usize)>,
        u: usize,
    )
        requires
            self.wf(),
            self.inv_num(ord, now, order),
            self.inv_cid(ord, low, on, cid, ncomp),
            self.inv_frames(ord, on, fin, pidx, path, Some(u)),
            now < self.n,
        ensures
            self.inv_num(ord.update(u as int, Some(now as usize)), now + 1, order.push(u as int)),
            self.inv_cid(
                ord.update(u as int, Some(now as usize)),
                low.update(u as int, now as usize),
                on.update(u as int, true),
                cid,
                ncomp,
            ),
    {
        let ord2 = ord.update(u as int, Some(now as usize));
        let low2 = low.update(u as int, now as usize);
        let stack2 = stack.push(u);
        let on2 = on.update(u as int, true);
        let order2 = order.push(u as int);
        let fin2 = fin.update(u as int, false);
        let pidx2 = pidx.update(u as int, path.len() as int);
        let path2 = path.push((u, 0usize));
        let ui = u as int;
        reveal(DirectedGraph::inv_num);
        reveal(DirectedGraph::inv_cid);
        reveal(DirectedGraph::inv_frames);
        assert(!visited(ord, ui));
        assert(!on[ui]);
        assert(cid[ui] == -1) by {
            if cid[ui] >= 0 {
                assert(visited(ord, ui));
            }
        }
        assert(self.inv_num(ord2, now + 1, order2)) by {
            assert forall|v: int| 0 <= v < self.n && #[trigger] visited(ord2, v) implies num(
                ord2,
                v,
            ) < now + 1 && order2[num(ord2, v)] == v by {
                if v != ui {
                    assert(visited(ord, v));
                }
            }
        }
        assert(self.inv_cid(ord2, low2, on2, cid, ncomp)) by {
            assert forall|v: int| 0 <= v < self.n && #[trigger] cid[v] >= 0 implies visited(
                ord2,
                v,
            ) by {
                assert(visited(ord, v));
            }
        }
    }

    proof fn lemma_visit_stack(
        &self,
        ord: Seq<Option<usize>>,
        low: Seq<usize>,
        now: int,
        stack: Seq<usize>,
        on: Seq<bool>,
        cid: Seq<int>,
        order: Seq<int>,
        ncomp: int,
        fin: Seq<bool>,
        pidx: Seq<int>,
        path: Seq<(usize, usize)>,
        u: usize,
    )
        requires
            self.wf(),
            self.inv_num(ord, now, order),
            self.inv_cid(ord, low, on, cid, ncomp),
            self.inv_frames(ord, on, fin, pidx, path, Some(u)),
            now < self.n,
            self.inv_stack(ord, stack, on),
        ensures
            self.inv_stack(ord.update(u as int, Some(now as usize)), stack.push(u), on.update(u as int, true)),
    {
        let ord2 = ord.update(u as int, Some(now as usize));
        let low2 = low.update(u as int, now as usize);
        let stack2 = stack.push(u);
        let on2 = on.update(u as int, true);
        let order2 = order.push(u as int);
        let fin2 = fin.update(u as int, false);
        let pidx2 = pidx.update(u as int, path.len() as int);
        let path2 = path.push((u, 0usize));
        let ui = u as int;
        reveal(DirectedGraph::inv_num);
        reveal(DirectedGraph::inv_cid);
        reveal(DirectedGraph::inv_frames);
        assert(!visited(ord, ui));
        assert(!on[ui]);
        assert(cid[ui] == -1) by {
            if cid[ui] >= 0 {
                assert(visited(ord, ui));
            }
        }
        reveal(DirectedGraph::inv_stack);
        assert forall|i: int| 0 <= i < stack2.len() implies #[trigger] stack2[i] < self.n
            && on2[stack2[i] as int] by {
            if i < stack.len() {
                assert(stack2[i] == stack[i]);
            }
        }
        assert forall|i: int, j: int| 0 <= i < j < stack2.len() implies num(
            ord2,
            #[trigger] stack2[i] as int,
        ) < num(ord2, #[trigger] stack2[j] as int) by {
            assert(stack2[i] == stack[i]);
            assert(on[stack[i] as int]);
            if j < stack.len() {
                assert(stack2[j] == stack[j]);
                assert(on[stack[j] as int]);
                assert(num(ord, stack[i] as int) < num(ord, stack[j] as int));
            } else {
                assert(visited(ord, stack[i] as int));
            }
        }
        assert forall|v: int| 0 <= v < self.n && #[trigger] on2[v] implies stack2.contains(
            v as usize,
        ) by {
            if v != ui {
                assert(stack.contains(v as usize));
                let i = choose|i: int| 0 <= i < stack.len() && stack[i] == v as usize;
                assert(stack2[i] == v as usize);
            } else {
                assert(stack2[stack.len() as int] == u);
            }
        }
    }

    proof fn lemma_visit_frames(
        &self,
        ord: Seq<Option<usize>>,
        low: Seq<usize>,
        now: int,
        stack: Seq<usize>,
        on: Seq<bool>,
        cid: Seq<int>,
        order: Seq<int>,
        ncomp: int,
        fin: Seq<bool>,
        pidx: Seq<int>,
        path: Seq<(usize, usize)>,
        u: usize,
    )
        requires
            self.wf(),
            self.inv_num(ord, now, order),
            self.inv_cid(ord, low, on, cid, ncomp),
            self.inv_frames(ord, on, fin, pidx, path, Some(u)),
            now < self.n,
        ensures
            self.inv_frames(ord.update(u as int, Some(now as usize)), on.update(u as int, true), fin.update(u as int, false), pidx.update(u as int, path.len() as int), path.push((u, 0usize)), None),
    {
        let ord2 = ord.update(u as int, Some(now as usize));
        let low2 = low.update(u as int, now as usize);
        let stack2 = stack.push(u);
        let on2 = on.update(u as int, true);
        let order2 = order.push(u as int);
        let fin2 = fin.update(u as int, false);
        let pidx2 = pidx.update(u as int, path.len() as int);
        let path2 = path.push((u, 0usize));
        let ui = u as int;
        reveal(DirectedGraph::inv_num);
        reveal(DirectedGraph::inv_cid);
        reveal(DirectedGraph::inv_frames);
        assert(!visited(ord, ui));
        assert(!on[ui]);
        assert(cid[ui] == -1) by {
            if cid[ui] >= 0 {
                assert(visited(ord, ui));
            }
        }
        assert forall|t: int| 0 <= t < path2.len() implies (#[trigger] path2[t]).0 < self.n
            && on2[path2[t].0 as int] && !fin2[path2[t].0 as int] && path2[t].1 <= self.deg(
            path2[t].0 as int,
        ) && pidx2[path2[t].0 as int] == t by {
            if t < path.len() {
                assert(path2[t] == path[t]);
                assert(on[path[t].0 as int]);
            }
        }
        assert forall|t: int| 0 <= t < path2.len() - 1 implies (#[trigger] path2[t]).1 >= 1
            && self.succ(path2[t].0 as int, path2[t].1 - 1) == path2[t + 1].0 by {
            assert(path2[t] == path[t]);
            if t < path.len() - 1 {
                assert(path2[t + 1] == path[t + 1]);
            }
        }
        assert forall|t1: int, t2: int| 0 <= t1 < t2 < path2.len() implies num(
            ord2,
            (#[trigger] path2[t1]).0 as int,
        ) < num(ord2, (#[trigger] path2[t2]).0 as int) by {
            assert(path2[t1] == path[t1]);
            assert(on[path[t1].0 as int]);
            if t2 < path.len() {
                assert(path2[t2] == path[t2]);
                assert(on[path[t2].0 as int]);
                assert(num(ord, path[t1].0 as int) < num(ord, path[t2].0 as int));
            } else {
                assert(visited(ord, path[t1].0 as int));
            }
        }
        assert forall|v: int| 0 <= v < self.n && visited(ord2, v) && !#[trigger] fin2[v] implies 0
            <= pidx2[v] < path2.len() && path2[pidx2[v]].0 == v by {
            if v != ui {
                assert(visited(ord, v));
                assert(path2[pidx[v]] == path[pidx[v]]);
            }
        }
    }

    proof fn lemma_visit_reach(
        &self,
        ord: Seq<Option<usize>>,
        low: Seq<usize>,
        now: int,
        stack: Seq<usize>,
        on: Seq<bool>,
        cid: Seq<int>,
        order: Seq<int>,
        ncomp: int,
        fin: Seq<bool>,
        pidx: Seq<int>,
        path: Seq<(usize, usize)>,
        u: usize,
    )
        requires
            self.wf(),
            self.inv_num(ord, now, order),
            self.inv_cid(ord, low, on, cid, ncomp),
            self.inv_frames(ord, on, fin, pidx, path, Some(u)),
            now < self.n,
            self.inv_reach(ord, path),
        ensures
            self.inv_reach(ord.update(u as int, Some(now as usize)), path.push((u, 0usize))),
    {
        let ord2 = ord.update(u as int, Some(now as usize));
        let low2 = low.update(u as int, now as usize);
        let stack2 = stack.push(u);
        let on2 = on.update(u as int, true);
        let order2 = order.push(u as int);
        let fin2 = fin.update(u as int, false);
        let pidx2 = pidx.update(u as int, path.len() as int);
        let path2 = path.push((u, 0usize));
        let ui = u as int;
        reveal(DirectedGraph::inv_num);
        reveal(DirectedGraph::inv_cid);
        reveal(DirectedGraph::inv_frames);
        assert(!visited(ord, ui));
        assert(!on[ui]);
        assert(cid[ui] == -1) by {
            if cid[ui] >= 0 {
                assert(visited(ord, ui));
            }
        }
        reveal(DirectedGraph::inv_reach);
        assert forall|t: int, v: int|
            0 <= t < path2.len() && 0 <= v < self.n && visited(ord2, v) && num(ord2, v) >= num(
                ord2,
                (#[trigger] path2[t]).0 as int,
            ) implies #[trigger] self.reaches(path2[t].0 as int, v) by {
            if t == path.len() {
                if v != ui {
                    assert(visited(ord, v));
                }
                self.lemma_reaches_refl(ui);
            } else {
                assert(path2[t] == path[t]);
                assert(on[path[t].0 as int]);
                if v == ui {
                    let lt = path.len() - 1;
                    let last = path[lt];
                    assert(on[last.0 as int]);
                    if t < lt {
                        assert(num(ord, path[t].0 as int) < num(ord, path[lt].0 as int));
                    }
                    assert(self.reaches(path[t].0 as int, last.0 as int));
                    self.lemma_edge_succ(last.0 as int, last.1 - 1);
                    self.lemma_reaches_step(path[t].0 as int, last.0 as int, ui);
                } else {
                    assert(visited(ord, v));
                }
            }
        }
    }

    proof fn lemma_visit_bottom(
        &self,
        ord: Seq<Option<usize>>,
        low: Seq<usize>,
        now: int,
        stack: Seq<usize>,
        on: Seq<bool>,
        cid: Seq<int>,
        order: Seq<int>,
        ncomp: int,
        fin: Seq<bool>,
        pidx: Seq<int>,
        path: Seq<(usize, usize)>,
        u: usize,
    )
        requires
            self.wf(),
            self.inv_num(ord, now, order),
            self.inv_cid(ord, low, on, cid, ncomp),
            self.inv_frames(ord, on, fin, pidx, path, Some(u)),
            now < self.n,
            self.inv_bottom(ord, on, path),
        ensures
            self.inv_bottom(ord.update(u as int, Some(now as usize)), on.update(u as int, true), path.push((u, 0usize))),
    {
        let ord2 = ord.update(u as int, Some(now as usize));
        let low2 = low.update(u as int, now as usize);
        let stack2 = stack.push(u);
        let on2 = on.update(u as int, true);
        let order2 = order.push(u as int);
        let fin2 = fin.update(u as int, false);
        let pidx2 = pidx.update(u as int, path.len() as int);
        let path2 = path.push((u, 0usize));
        let ui = u as int;
        reveal(DirectedGraph::inv_num);
        reveal(DirectedGraph::inv_cid);
        reveal(DirectedGraph::inv_frames);
        assert(!visited(ord, ui));
        assert(!on[ui]);
        assert(cid[ui] == -1) by {
            if cid[ui] >= 0 {
                assert(visited(ord, ui));
            }
        }
        reveal(DirectedGraph::inv_bottom);
        if path.len() > 0 {
            assert(path2[0] == path[0]);
            assert(on[path[0].0 as int]);
            assert forall|v: int| 0 <= v < self.n && #[trigger] on2[v] implies num(ord2, v) >= num(
                ord2,
                path2[0].0 as int,
            ) by {
                if v == ui {
                    assert(visited(ord, path[0].0 as int));
                }
            }
        }
    }

    proof fn lemma_visit_low(
        &self,
        ord: Seq<Option<usize>>,
        low: Seq<usize>,
        now: int,
        stack: Seq<usize>,
        on: Seq<bool>,
        cid: Seq<int>,
        order: Seq<int>,
        ncomp: int,
        fin: Seq<bool>,
        pidx: Seq<int>,
        path: Seq<(usize, usize)>,
        u: usize,
    )
        requires
            self.wf(),
            self.inv_num(ord, now, order),
            self.inv_cid(ord, low, on, cid, ncomp),
            self.inv_frames(ord, on, fin, pidx, path, Some(u)),
            now < self.n,
            self.inv_low(ord, low, on, order),
        ensures
            self.inv_low(ord.update(u as int, Some(now as usize)), low.update(u as int, now as usize), on.update(u as int, true), order.push(u as int)),
    {
        let ord2 = ord.update(u as int, Some(now as usize));
        let low2 = low.update(u as int, now as usize);
        let stack2 = stack.push(u);
        let on2 = on.update(u as int, true);
        let order2 = order.push(u as int);
        let fin2 = fin.update(u as int, false);
        let pidx2 = pidx.update(u as int, path.len() as int);
        let path2 = path.push((u, 0usize));
        let ui = u as int;
        reveal(DirectedGraph::inv_num);
        reveal(DirectedGraph::inv_cid);
        reveal(DirectedGraph::inv_frames);
        assert(!visited(ord, ui));
        assert(!on[ui]);
        assert(cid[ui] == -1) by {
            if cid[ui] >= 0 {
                assert(visited(ord, ui));
            }
        }
        reveal(DirectedGraph::inv_low);
        assert forall|v: int| 0 <= v < self.n && #[trigger] on2[v] implies low2[v] <= num(ord2, v)
            && on2[order2[low2[v] as int]] && self.reaches(v, order2[low2[v] as int]) by {
            if v == ui {
                self.lemma_reaches_refl(ui);
            } else {
                assert(on[v]);
                assert(visited(ord, v));
                assert(num(ord, v) < now);
            }
        }
    }

    proof fn lemma_visit_fin(
        &self,
        ord: Seq<Option<usize>>,
        low: Seq<usize>,
        now: int,
        stack: Seq<usize>,
        on: Seq<bool>,
        cid: Seq<int>,
        order: Seq<int>,
        ncomp: int,
        fin: Seq<bool>,
        pidx: Seq<int>,
        path: Seq<(usize, usize)>,
        u: usize,
    )
        requires
            self.wf(),
            self.inv_num(ord, now, order),
            self.inv_cid(ord, low, on, cid, ncomp),
            self.inv_frames(ord, on, fin, pidx, path, Some(u)),
            now < self.n,
            self.inv_fin(ord, low, on, fin, path),
        ensures
            self.inv_fin(ord.update(u as int, Some(now as usize)), low.update(u as int, now as usize), on.update(u as int, true), fin.update(u as int, false), path.push((u, 0usize))),
    {
        let ord2 = ord.update(u as int, Some(now as usize));
        let low2 = low.update(u as int, now as usize);
        let stack2 = stack.push(u);
        let on2 = on.update(u as int, true);
        let order2 = order.push(u as int);
        let fin2 = fin.update(u as int, false);
        let pidx2 = pidx.update(u as int, path.len() as int);
        let path2 = path.push((u, 0usize));
        let ui = u as int;
        reveal(DirectedGraph::inv_num);
        reveal(DirectedGraph::inv_cid);
        reveal(DirectedGraph::inv_frames);
        assert(!visited(ord, ui));
        assert(!on[ui]);
        assert(cid[ui] == -1) by {
            if cid[ui] >= 0 {
                assert(visited(ord, ui));
            }
        }
        reveal(DirectedGraph::inv_fin);
        assert forall|t: int, v: int|
            0 <= t < path2.len() && 0 <= v < self.n && #[trigger] on2[v] && fin2[v]
                && #[trigger] in_gap(ord2, path2, t, v) implies low2[path2[t].0 as int] <= low2[v] by {
            assert(v != ui);
            assert(on[v]);
            assert(visited(ord, v));
            if t < path.len() {
                assert(path2[t] == path[t]);
                assert(on[path[t].0 as int]);
                if t < path.len() - 1 {
                    assert(path2[t + 1] == path[t + 1]);
                    assert(on[path[t + 1].0 as int]);
                }
                assert(in_gap(ord, path, t, v));
            }
        }
    }

    proof fn lemma_visit_edges_fin(
        &self,
        ord: Seq<Option<usize>>,
        low: Seq<usize>,
        now: int,
        stack: Seq<usize>,
        on: Seq<bool>,
        cid: Seq<int>,
        order: Seq<int>,
        ncomp: int,
        fin: Seq<bool>,
        pidx: Seq<int>,
        path: Seq<(usize, usize)>,
        u: usize,
    )
        requires
            self.wf(),
            self.inv_num(ord, now, order),
            self.inv_cid(ord, low, on, cid, ncomp),
            self.inv_frames(ord, on, fin, pidx, path, Some(u)),
            now < self.n,
            self.inv_edges_fin(ord, low, on, cid, fin),
        ensures
            self.inv_edges_fin(ord.update(u as int, Some(now as usize)), low.update(u as int, now as usize), on.update(u as int, true), cid, fin.update(u as int, false)),
    {
        let ord2 = ord.update(u as int, Some(now as usize));
        let low2 = low.update(u as int, now as usize);
        let stack2 = stack.push(u);
        let on2 = on.update(u as int, true);
        let order2 = order.push(u as int);
        let fin2 = fin.update(u as int, false);
        let pidx2 = pidx.update(u as int, path.len() as int);
        let path2 = path.push((u, 0usize));
        let ui = u as int;
        reveal(DirectedGraph::inv_num);
        reveal(DirectedGraph::inv_cid);
        reveal(DirectedGraph::inv_frames);
        assert(!visited(ord, ui));
        assert(!on[ui]);
        assert(cid[ui] == -1) by {
            if cid[ui] >= 0 {
                assert(visited(ord, ui));
            }
        }
        reveal(DirectedGraph::inv_edges_fin);
        assert forall|v: int, k: int|
            0 <= v < self.n && 0 <= k < self.deg(v) && on2[v] && fin2[v] implies self.edge_done(
            ord2,
            low2,
            on2,
            cid,
            v,
            #[trigger] self.succ(v, k),
        ) by {
            assert(v != ui);
            assert(self.edge_done(ord, low, on, cid, v, self.succ(v, k)));
        }
    }

    proof fn lemma_visit_edges_path(
        &self,
        ord: Seq<Option<usize>>,
        low: Seq<usize>,
        now: int,
        on: Seq<bool>,
        cid: Seq<int>,
        path: Seq<(usize, usize)>,
        u: usize,
    )
        requires
            self.inv_edges_path(ord, low, on, cid, path, Some(u)),
            ord.len() == self.n,
            low.len() == self.n,
            on.len() == self.n,
            u < self.n,
            !visited(ord, u as int),
            path.len() > 0 ==> path.last().1 >= 1 && self.succ(
                path.last().0 as int,
                path.last().1 - 1,
            ) == u,
            self.wf(),
            forall|t: int|
                0 <= t < path.len() ==> (#[trigger] path[t]).0 != u && visited(ord, path[t].0 as int)
                    && low[path[t].0 as int] <= num(ord, path[t].0 as int) && path[t].0 < self.n
                    && path[t].1 <= self.deg(path[t].0 as int) && num(ord, path[t].0 as int) < now,
            0 <= now < self.n,
        ensures
            self.inv_edges_path(
                ord.update(u as int, Some(now as usize)),
                low.update(u as int, now as usize),
                on.update(u as int, true),
                cid,
                path.push((u, 0usize)),
                None,
            ),
    {
        let ord2 = ord.update(u as int, Some(now as usize));
        let low2 = low.update(u as int, now as usize);
        let on2 = on.update(u as int, true);
        let path2 = path.push((u, 0usize));
        let ui = u as int;
        reveal(DirectedGraph::inv_edges_path);
        assert forall|t: int, k: int|
            0 <= t < path2.len() && 0 <= k < (#[trigger] path2[t]).1 implies ((t == path2.len() - 1
            && k == path2[t].1 - 1 && false) || self.edge_done(
            ord2,
            low2,
            on2,
            cid,
            path2[t].0 as int,
            #[trigger] self.succ(path2[t].0 as int, k),
        )) by {
            assert(t < path.len());
            assert(path2[t] == path[t]);
            let a = path[t].0 as int;
            let w = self.succ(a, k);
            assert(path[t].0 != u);
            assert(a != ui);
            if t == path.len() - 1 && k == path[t].1 - 1 {
                assert(w == ui);
                assert(low2[a] == low[a]);
                assert(num(ord2, ui) == now);
            } else {
                assert(self.edge_done(ord, low, on, cid, a, w));
                assert(w != ui);
                assert(low2[a] == low[a]);
                assert(on2[w] == on[w]);
                assert(ord2[w] == ord[w]);
            }
        }
    }

    /// Facts about the active vertices while `u` waits to be entered.
    proof fn lemma_path_facts(
        &self,
        ord: Seq<Option<usize>>,
        low: Seq<usize>,
        on: Seq<bool>,
        cid: Seq<int>,
        ncomp: int,
        order: Seq<int>,
        fin: Seq<bool>,
        pidx: Seq<int>,
        path: Seq<(usize, usize)>,
        enter: Option<usize>,
    )
        requires
            self.inv_cid(ord, low, on, cid, ncomp),
            self.inv_frames(ord, on, fin, pidx, path, enter),
            self.inv_low(ord, low, on, order),
        ensures
            forall|t: int|
                0 <= t < path.len() ==> (#[trigger] path[t]).0 < self.n && on[path[t].0 as int]
                    && visited(ord, path[t].0 as int) && low[path[t].0 as int] <= num(
                    ord,
                    path[t].0 as int,
                ) && (enter matches Some(e) ==> path[t].0 != e) && path[t].1 <= self.deg(
                    path[t].0 as int,
                ),
    {
        reveal(DirectedGraph::inv_cid);
        reveal(DirectedGraph::inv_frames);
        reveal(DirectedGraph::inv_low);
    }

    /// Numbering the entered vertex `u` keeps the invariant, with `u` now the
    /// last active frame.
    proof fn lemma_visit(
        &self,
        ord: Seq<Option<usize>>,
        low: Seq<usize>,
        now: int,
        stack: Seq<usize>,
        on: Seq<bool>,
        cid: Seq<int>,
        order: Seq<int>,
        comps: Seq<Seq<usize>>,
        fin: Seq<bool>,
        pidx: Seq<int>,
        path: Seq<(usize, usize)>,
        u: usize,
    )
        requires
            self.tarjan_inv(ord, low, now, stack, on, cid, order, comps, fin, pidx, path, Some(u)),
        ensures
            now < self.n,
            self.tarjan_inv(
                ord.update(u as int, Some(now as usize)),
                low.update(u as int, now as usize),
                now + 1,
                stack.push(u),
                on.update(u as int, true),
                cid,
                order.push(u as int),
                comps,
                fin.update(u as int, false),
                pidx.update(u as int, path.len() as int),
                path.push((u, 0usize)),
                None,
            ),
    {
        reveal(DirectedGraph::inv_frames);
        self.lemma_numbered_below_n(ord, now, order, u as int);
        let nc = comps.len() as int;
        self.lemma_visit_num_cid(ord, low, now, stack, on, cid, order, nc, fin, pidx, path, u);
        self.lemma_visit_stack(ord, low, now, stack, on, cid, order, nc, fin, pidx, path, u);
        self.lemma_visit_frames(ord, low, now, stack, on, cid, order, nc, fin, pidx, path, u);
        self.lemma_visit_reach(ord, low, now, stack, on, cid, order, nc, fin, pidx, path, u);
        self.lemma_visit_bottom(ord, low, now, stack, on, cid, order, nc, fin, pidx, path, u);
        self.lemma_visit_low(ord, low, now, stack, on, cid, order, nc, fin, pidx, path, u);
        self.lemma_visit_fin(ord, low, now, stack, on, cid, order, nc, fin, pidx, path, u);
        self.lemma_visit_edges_fin(ord, low, now, stack, on, cid, order, nc, fin, pidx, path, u);
        reveal(DirectedGraph::inv_num);
        reveal(DirectedGraph::inv_cid);
        self.lemma_path_facts(ord, low, on, cid, nc, order, fin, pidx, path, Some(u));
        assert forall|t: int| 0 <= t < path.len() implies num(ord, (#[trigger] path[t]).0 as int) < now by {
            assert(visited(ord, path[t].0 as int));
        }
        self.lemma_visit_edges_path(ord, low, now, on, cid, path, u);
    }
}


impl DirectedGraph {
    /// Lowering `low[u]` of a stacked vertex to the number of a stacked vertex
    /// that `u` reaches keeps `inv_low`.
    proof fn lemma_lower_low(
        &self,
        ord: Seq<Option<usize>>,
        low: Seq<usize>,
        on: Seq<bool>,
        order: Seq<int>,
        u: int,
        w: int,
    )
        requires
            self.inv_low(ord, low, on, order),
            0 <= u < self.n,
            0 <= w < self.n,
            on[w],
            order[num(ord, w)] == w,
            0 <= num(ord, w) < low[u],
            self.reaches(u, w),
            low.len() == self.n,
        ensures
            self.inv_low(ord, low.update(u, num(ord, w) as usize), on, order),
    {
        reveal(DirectedGraph::inv_low);
        let low2 = low.update(u, num(ord, w) as usize);
        assert forall|v: int| 0 <= v < self.n && #[trigger] on[v] implies low2[v] <= num(ord, v)
            && on[order[low2[v] as int]] && self.reaches(v, order[low2[v] as int]) by {
            if v == u {
                assert(low2[v] == num(ord, w));
            }
        }
    }

    /// Lowering `low` of vertices that are not finished keeps `inv_fin`.
    proof fn lemma_lower_fin(
        &self,
        ord: Seq<Option<usize>>,
        low: Seq<usize>,
        low2: Seq<usize>,
        on: Seq<bool>,
        fin: Seq<bool>,
        path: Seq<(usize, usize)>,
    )
        requires
            self.inv_fin(ord, low, on, fin, path),
            low2.len() == low.len(),
            forall|v: int| 0 <= v < low.len() ==> #[trigger] low2[v] <= low[v],
            forall|v: int| 0 <= v < low.len() && #[trigger] fin[v] ==> low2[v] == low[v],
            low.len() == self.n,
            forall|t: int| 0 <= t < path.len() ==> (#[trigger] path[t]).0 < self.n,
        ensures
            self.inv_fin(ord, low2, on, fin, path),
    {
        reveal(DirectedGraph::inv_fin);
        assert forall|t: int, v: int|
            0 <= t < path.len() && 0 <= v < self.n && #[trigger] on[v] && fin[v] && #[trigger] in_gap(
                ord,
                path,
                t,
                v,
            ) implies low2[path[t].0 as int] <= low2[v] by {
            assert(low2[v] == low[v]);
            assert(low[path[t].0 as int] <= low[v]);
            assert(path[t].0 < self.n);
        }
    }

    /// Lowering `low` anywhere keeps the examined edges examined.
    proof fn lemma_lower_edges(
        &self,
        ord: Seq<Option<usize>>,
        low: Seq<usize>,
        low2: Seq<usize>,
        on: Seq<bool>,
        cid: Seq<int>,
        fin: Seq<bool>,
        path: Seq<(usize, usize)>,
        enter: Option<usize>,
    )
        requires
            self.inv_edges_fin(ord, low, on, cid, fin),
            self.inv_edges_path(ord, low, on, cid, path, enter),
            low2.len() == low.len(),
            low.len() == self.n,
            forall|v: int| 0 <= v < low.len() ==> #[trigger] low2[v] <= low[v],
            forall|t: int| 0 <= t < path.len() ==> (#[trigger] path[t]).0 < self.n,
        ensures
            self.inv_edges_fin(ord, low2, on, cid, fin),
            self.inv_edges_path(ord, low2, on, cid, path, enter),
    {
        reveal(DirectedGraph::inv_edges_fin);
        reveal(DirectedGraph::inv_edges_path);
        assert forall|v: int, k: int|
            0 <= v < self.n && 0 <= k < self.deg(v) && on[v] && fin[v] implies self.edge_done(
            ord,
            low2,
            on,
            cid,
            v,
            #[trigger] self.succ(v, k),
        ) by {
            assert(self.edge_done(ord, low, on, cid, v, self.succ(v, k)));
            assert(low2[v] <= low[v]);
        }
        assert forall|t: int, k: int|
            0 <= t < path.len() && 0 <= k < (#[trigger] path[t]).1 implies ((t == path.len() - 1
            && k == path[t].1 - 1 && enter is Some) || self.edge_done(
            ord,
            low2,
            on,
            cid,
            path[t].0 as int,
            #[trigger] self.succ(path[t].0 as int, k),
        )) by {
            let a = path[t].0 as int;
            if !(t == path.len() - 1 && k == path[t].1 - 1 && enter is Some) {
                assert(self.edge_done(ord, low, on, cid, a, self.succ(a, k)));
                assert(low2[a] <= low[a]);
            }
        }
    }

    /// Moving the last active vertex on to its next child, either past an
    /// examined edge or into an unnumbered successor, keeps the path invariants.
    proof fn lemma_advance_child(
        &self,
        ord: Seq<Option<usize>>,
        low: Seq<usize>,
        on: Seq<bool>,
        cid: Seq<int>,
        fin: Seq<bool>,
        pidx: Seq<int>,
        path: Seq<(usize, usize)>,
        c2: usize,
        enter2: Option<usize>,
    )
        requires
            self.wf(),
            self.inv_frames(ord, on, fin, pidx, path, None),
            self.inv_reach(ord, path),
            self.inv_bottom(ord, on, path),
            self.inv_fin(ord, low, on, fin, path),
            self.inv_edges_path(ord, low, on, cid, path, None),
            path.len() > 0,
            c2 == path.last().1 + 1,
            path.last().1 < self.deg(path.last().0 as int),
            enter2 matches Some(e) ==> e == self.succ(path.last().0 as int, path.last().1 as int)
                && !visited(ord, e as int),
            enter2 is None ==> self.edge_done(
                ord,
                low,
                on,
                cid,
                path.last().0 as int,
                self.succ(path.last().0 as int, path.last().1 as int),
            ),
        ensures
            self.inv_frames(ord, on, fin, pidx, path.update(path.len() - 1, (path.last().0, c2)), enter2),
            self.inv_reach(ord, path.update(path.len() - 1, (path.last().0, c2))),
            self.inv_bottom(ord, on, path.update(path.len() - 1, (path.last().0, c2))),
            self.inv_fin(ord, low, on, fin, path.update(path.len() - 1, (path.last().0, c2))),
            self.inv_edges_path(
                ord,
                low,
                on,
                cid,
                path.update(path.len() - 1, (path.last().0, c2)),
                enter2,
            ),
    {
        let lt = path.len() - 1;
        let u = path.last().0;
        let c = path.last().1;
        let path2 = path.update(lt, (u, c2));
        assert(path[lt] == path.last());
        assert(path2.len() == path.len());
        assert forall|t: int| 0 <= t < path.len() implies (#[trigger] path2[t]).0 == path[t].0 by {
        }
        assert forall|t: int| 0 <= t < lt implies #[trigger] path2[t] == path[t] by {
        }
        reveal(DirectedGraph::inv_frames);
        assert(self.inv_frames(ord, on, fin, pidx, path2, enter2)) by {
            assert forall|t: int| 0 <= t < path2.len() implies (#[trigger] path2[t]).0 < self.n
                && on[path2[t].0 as int] && !fin[path2[t].0 as int] && path2[t].1 <= self.deg(
                path2[t].0 as int,
            ) && pidx[path2[t].0 as int] == t by {
                assert(path[t].0 < self.n && on[path[t].0 as int] && !fin[path[t].0 as int]
                    && pidx[path[t].0 as int] == t);
                if t < lt {
                    assert(path2[t] == path[t]);
                } else {
                    assert(path2[t] == (u, c2));
                }
            }
            assert forall|t: int| 0 <= t < path2.len() - 1 implies (#[trigger] path2[t]).1 >= 1
                && self.succ(path2[t].0 as int, path2[t].1 - 1) == path2[t + 1].0 by {
                assert(path2[t] == path[t]);
                assert(path[t].1 >= 1 && self.succ(path[t].0 as int, path[t].1 - 1) == path[t + 1].0);
                assert(path2[t + 1].0 == path[t + 1].0);
            }
            assert forall|t1: int, t2: int| 0 <= t1 < t2 < path2.len() implies num(
                ord,
                (#[trigger] path2[t1]).0 as int,
            ) < num(ord, (#[trigger] path2[t2]).0 as int) by {
                assert(num(ord, path[t1].0 as int) < num(ord, path[t2].0 as int));
                assert(path2[t1].0 == path[t1].0);
                assert(path2[t2].0 == path[t2].0);
            }
            assert forall|v: int| 0 <= v < self.n && visited(ord, v) && !#[trigger] fin[v] implies 0
                <= pidx[v] < path2.len() && path2[pidx[v]].0 == v by {
                assert(path2[pidx[v]].0 == path[pidx[v]].0);
            }
            if enter2 is Some {
                let e = enter2->0;
                assert(path2.last() == (u, c2));
                assert(self.adj@[u as int]@[c as int] < self.n);
            }
        }
        reveal(DirectedGraph::inv_reach);
        assert(self.inv_reach(ord, path2)) by {
            assert forall|t: int, v: int|
                0 <= t < path2.len() && 0 <= v < self.n && visited(ord, v) && num(ord, v) >= num(
                    ord,
                    (#[trigger] path2[t]).0 as int,
                ) implies #[trigger] self.reaches(path2[t].0 as int, v) by {
                assert(path[t].0 == path2[t].0);
            }
        }
        reveal(DirectedGraph::inv_bottom);
        assert(path2[0].0 == path[0].0);
        reveal(DirectedGraph::inv_fin);
        assert(self.inv_fin(ord, low, on, fin, path2)) by {
            assert forall|t: int, v: int|
                0 <= t < path2.len() && 0 <= v < self.n && #[trigger] on[v] && fin[v]
                    && #[trigger] in_gap(ord, path2, t, v) implies low[path2[t].0 as int] <= low[v] by {
                if t < path.len() - 1 {
                    assert(path2[t + 1].0 == path[t + 1].0);
                }
                assert(path2[t].0 == path[t].0);
                assert(in_gap(ord, path, t, v));
            }
        }
        reveal(DirectedGraph::inv_edges_path);
        assert(self.inv_edges_path(ord, low, on, cid, path2, enter2)) by {
            assert forall|t: int, k: int|
                0 <= t < path2.len() && 0 <= k < (#[trigger] path2[t]).1 implies ((t == path2.len() - 1
                && k == path2[t].1 - 1 && enter2 is Some) || self.edge_done(
                ord,
                low,
                on,
                cid,
                path2[t].0 as int,
                #[trigger] self.succ(path2[t].0 as int, k),
            )) by {
                if t == lt && k == c {
                    assert(path2[t] == (u, c2));
                } else if t == lt {
                    assert(path2[t] == (u, c2));
                    assert(k < path[t].1);
                    assert(self.edge_done(ord, low, on, cid, path[t].0 as int, self.succ(path[t].0 as int, k)));
                } else {
                    assert(path2[t] == path[t]);
                    assert(self.edge_done(ord, low, on, cid, path[t].0 as int, self.succ(path[t].0 as int, k)));
                }
            }
        }
    }
}

impl DirectedGraph {
    /// The part of the stack from the position of `u` upward holds exactly the
    /// stacked vertices numbered no lower than `u`.
    proof fn lemma_stack_suffix(
        &self,
        ord: Seq<Option<usize>>,
        stack: Seq<usize>,
        on: Seq<bool>,
        j: int,
        u: int,
    )
        requires
            self.inv_stack(ord, stack, on),
            0 <= j < stack.len(),
            stack[j] == u,
        ensures
            forall|v: int|
                0 <= v < self.n ==> (#[trigger] stack.skip(j).contains(v as usize) <==> (on[v]
                    && num(ord, v) >= num(ord, u))),
    {
        reveal(DirectedGraph::inv_stack);
        assert forall|v: int| 0 <= v < self.n implies (#[trigger] stack.skip(j).contains(
            v as usize,
        ) <==> (on[v] && num(ord, v) >= num(ord, u))) by {
            if stack.skip(j).contains(v as usize) {
                let i = choose|i: int|
                    0 <= i < stack.skip(j).len() && stack.skip(j)[i] == v as usize;
                assert(stack[j + i] == v as usize);
                assert(stack[j + i] < self.n && on[stack[j + i] as int]);
                if i > 0 {
                    assert(num(ord, stack[j] as int) < num(ord, stack[j + i] as int));
                }
            }
            if on[v] && num(ord, v) >= num(ord, u) {
                assert(stack.contains(v as usize));
                let i = choose|i: int| 0 <= i < stack.len() && stack[i] == v as usize;
                if i < j {
                    assert(num(ord, stack[i] as int) < num(ord, stack[j] as int));
                }
                assert(stack.skip(j)[i - j] == v as usize);
            }
        }
    }

    /// With `low[u] == num(u)` for the last active vertex `u`, every stacked
    /// vertex numbered no lower than `u` reaches `u` and has `low` no lower
    /// than the number of `u`.
    proof fn lemma_comp_reaches_root(
        &self,
        ord: Seq<Option<usize>>,
        low: Seq<usize>,
        now: int,
        on: Seq<bool>,
        cid: Seq<int>,
        ncomp: int,
        order: Seq<int>,
        fin: Seq<bool>,
        pidx: Seq<int>,
        path: Seq<(usize, usize)>,
        v: int,
    )
        requires
            self.wf(),
            self.inv_num(ord, now, order),
            self.inv_cid(ord, low, on, cid, ncomp),
            self.inv_frames(ord, on, fin, pidx, path, None),
            self.inv_low(ord, low, on, order),
            self.inv_fin(ord, low, on, fin, path),
            path.len() > 0,
            low[path.last().0 as int] == num(ord, path.last().0 as int),
            0 <= v < self.n,
            on[v],
            num(ord, v) >= num(ord, path.last().0 as int),
        ensures
            self.reaches(v, path.last().0 as int),
            low[v] >= num(ord, path.last().0 as int),
            v != path.last().0 ==> fin[v],
        decreases num(ord, v),
    {
        let u = path.last().0 as int;
        let lt = path.len() - 1;
        assert(path[lt] == path.last());
        if v == u {
            self.lemma_reaches_refl(u);
        } else {
            assert(visited(ord, v)) by {
                reveal(DirectedGraph::inv_cid);
            }
            assert(fin[v]) by {
                reveal(DirectedGraph::inv_frames);
                if !fin[v] {
                    let t = pidx[v];
                    assert(0 <= t < path.len() && path[t].0 == v);
                    if t < lt {
                        assert(num(ord, path[t].0 as int) < num(ord, path[lt].0 as int));
                    }
                }
            }
            assert(0 <= u < self.n && visited(ord, u)) by {
                reveal(DirectedGraph::inv_frames);
                reveal(DirectedGraph::inv_cid);
            }
            assert(num(ord, v) != num(ord, u)) by {
                reveal(DirectedGraph::inv_num);
                assert(visited(ord, u) && visited(ord, v));
                assert(order[num(ord, u)] == u && order[num(ord, v)] == v);
            }
            assert(in_gap(ord, path, lt, v));
            assert(low[u] <= low[v] && low[v] < num(ord, v)) by {
                reveal(DirectedGraph::inv_fin);
            }
            let w = order[low[v] as int];
            assert(on[w] && self.reaches(v, w)) by {
                reveal(DirectedGraph::inv_low);
            }
            assert(0 <= w < self.n && num(ord, w) == low[v]) by {
                reveal(DirectedGraph::inv_num);
                assert(num(ord, v) < now);
            }
            self.lemma_comp_reaches_root(ord, low, now, on, cid, ncomp, order, fin, pidx, path, w);
            self.lemma_reaches_trans(v, w, u);
        }
    }
}

/// `v` is stacked and numbered no lower than `u`: it belongs to the component
/// that `u` closes.
pub open spec fn in_comp(ord: Seq<Option<usize>>, on: Seq<bool>, u: int, v: int) -> bool {
    on[v] && num(ord, v) >= num(ord, u)
}

/// `on2` and `cid2` take the vertices of the component closed by `u` off the
/// stack and give them the id `ncomp`.
pub open spec fn closes(
    n: int,
    ord: Seq<Option<usize>>,
    on: Seq<bool>,
    cid: Seq<int>,
    ncomp: int,
    u: int,
    on2: Seq<bool>,
    cid2: Seq<int>,
) -> bool {
    &&& on2.len() == n
    &&& cid2.len() == n
    &&& forall|v: int| 0 <= v < n ==> #[trigger] on2[v] == (on[v] && !in_comp(ord, on, u, v))
    &&& forall|v: int|
        0 <= v < n ==> #[trigger] cid2[v] == (if in_comp(ord, on, u, v) {
            ncomp
        } else {
            cid[v]
        })
}

/// `comp` lists the stack from position `j` upward, top first.
pub open spec fn top_down(stack: Seq<usize>, j: int, comp: Seq<usize>) -> bool {
    &&& comp.len() == stack.len() - j
    &&& forall|i: int| 0 <= i < comp.len() ==> #[trigger] comp[i] == stack[stack.len() - 1 - i]
}

impl DirectedGraph {
    /// The component closed by the last active vertex `u`: its list holds
    /// each of its vertices once.
    proof fn lemma_comp_list(
        &self,
        ord: Seq<Option<usize>>,
        stack: Seq<usize>,
        on: Seq<bool>,
        j: int,
        u: int,
        comp: Seq<usize>,
    )
        requires
            self.inv_stack(ord, stack, on),
            0 <= j < stack.len(),
            stack[j] == u,
            top_down(stack, j, comp),
        ensures
            comp.len() > 0,
            forall|i: int| 0 <= i < comp.len() ==> #[trigger] comp[i] < self.n,
            forall|v: int| 0 <= v < self.n ==> (#[trigger] comp.contains(v as usize) <==> in_comp(ord, on, u, v)),
            forall|i1: int, i2: int|
                0 <= i1 < comp.len() && 0 <= i2 < comp.len() && #[trigger] comp[i1] == #[trigger] comp[i2] ==> i1 == i2,
    {
        self.lemma_stack_suffix(ord, stack, on, j, u);
        reveal(DirectedGraph::inv_stack);
        let m = stack.len();
        assert forall|i: int| 0 <= i < comp.len() implies #[trigger] comp[i] < self.n by {
            assert(comp[i] == stack[m - 1 - i]);
        }
        assert forall|v: int| 0 <= v < self.n implies (#[trigger] comp.contains(v as usize) <==> in_comp(ord, on, u, v)) by {
            if comp.contains(v as usize) {
                let i = choose|i: int| 0 <= i < comp.len() && comp[i] == v as usize;
                assert(stack.skip(j)[m - 1 - i - j] == v as usize);
                assert(stack.skip(j).contains(v as usize));
            }
            if in_comp(ord, on, u, v) {
                assert(stack.skip(j).contains(v as usize));
                let i = choose|i: int| 0 <= i < stack.skip(j).len() && stack.skip(j)[i] == v as usize;
                assert(comp[m - 1 - j - i] == stack[j + i]);
            }
        }
        assert forall|i1: int, i2: int|
            0 <= i1 < comp.len() && 0 <= i2 < comp.len() && #[trigger] comp[i1] == #[trigger] comp[i2] implies i1 == i2 by {
            assert(comp[i1] == stack[m - 1 - i1]);
            assert(comp[i2] == stack[m - 1 - i2]);
            if i1 < i2 {
                assert(num(ord, stack[m - 1 - i2] as int) < num(ord, stack[m - 1 - i1] as int));
            } else if i2 < i1 {
                assert(num(ord, stack[m - 1 - i1] as int) < num(ord, stack[m - 1 - i2] as int));
            }
        }
    }

    /// Closing a component keeps `inv_cid`, `inv_stack` and `inv_comps`.
    proof fn lemma_close_cid_stack_comps(
        &self,
        ord: Seq<Option<usize>>,
        low: Seq<usize>,
        now: int,
        stack: Seq<usize>,
        on: Seq<bool>,
        cid: Seq<int>,
        order: Seq<int>,
        comps: Seq<Seq<usize>>,
        fin: Seq<bool>,
        pidx: Seq<int>,
        path: Seq<(usize, usize)>,
        j: int,
        on2: Seq<bool>,
        cid2: Seq<int>,
        comp: Seq<usize>,
    )
        requires
            self.tarjan_inv(ord, low, now, stack, on, cid, order, comps, fin, pidx, path, None),
            path.len() > 0,
            low[path.last().0 as int] == num(ord, path.last().0 as int),
            0 <= j < stack.len(),
            stack[j] == path.last().0,
            top_down(stack, j, comp),
            closes(self.n as int, ord, on, cid, comps.len() as int, path.last().0 as int, on2, cid2),
        ensures
            self.inv_cid(ord, low, on2, cid2, comps.len() + 1 as int),
            self.inv_stack(ord, stack.take(j), on2),
            self.inv_comps(cid2, comps.push(comp)),
    {
        let u = path.last().0 as int;
        let nc = comps.len() as int;
        let comps2 = comps.push(comp);
        self.lemma_comp_list(ord, stack, on, j, u, comp);
        self.lemma_stack_suffix(ord, stack, on, j, u);
        assert(self.inv_cid(ord, low, on2, cid2, nc + 1)) by {
            reveal(DirectedGraph::inv_cid);
        }
        assert(self.inv_stack(ord, stack.take(j), on2)) by {
            reveal(DirectedGraph::inv_stack);
            let s2 = stack.take(j);
            assert forall|i: int| 0 <= i < s2.len() implies #[trigger] s2[i] < self.n && on2[s2[i] as int] by {
                assert(s2[i] == stack[i]);
                assert(num(ord, stack[i] as int) < num(ord, stack[j] as int));
            }
            assert forall|i: int, k: int| 0 <= i < k < s2.len() implies num(ord, #[trigger] s2[i] as int) < num(ord, #[trigger] s2[k] as int) by {
                assert(s2[i] == stack[i] && s2[k] == stack[k]);
            }
            assert forall|v: int| 0 <= v < self.n && #[trigger] on2[v] implies s2.contains(v as usize) by {
                assert(stack.contains(v as usize));
                let i = choose|i: int| 0 <= i < stack.len() && stack[i] == v as usize;
                if i >= j {
                    assert(stack.skip(j)[i - j] == v as usize);
                    assert(stack.skip(j).contains(v as usize));
                }
                assert(s2[i] == v as usize);
            }
        }
        assert(self.inv_comps(cid2, comps2)) by {
            reveal(DirectedGraph::inv_comps);
            reveal(DirectedGraph::inv_cid);
            assert forall|i: int, k: int| 0 <= i < comps2.len() && 0 <= k < comps2[i].len() implies #[trigger] comps2[i][k] < self.n
                && cid2[comps2[i][k] as int] == i by {
                if i < nc {
                    assert(comps2[i] == comps[i]);
                    let v = comps[i][k] as int;
                    assert(0 <= v < self.n && cid[v] == i);
                    assert(!on[v]);
                    assert(!in_comp(ord, on, u, v));
                    assert(cid2[v] == cid[v]);
                } else {
                    assert(comps2[i] == comp);
                    let v = comp[k] as int;
                    assert(comp.contains(comp[k]));
                    assert(0 <= v < self.n);
                    assert(comp.contains(v as usize));
                    assert(in_comp(ord, on, u, v));
                    assert(cid2[v] == nc);
                }
            }
            assert forall|i: int, k1: int, k2: int|
                0 <= i < comps2.len() && 0 <= k1 < comps2[i].len() && 0 <= k2 < comps2[i].len()
                    && #[trigger] comps2[i][k1] == #[trigger] comps2[i][k2] implies k1 == k2 by {
                if i < nc {
                    assert(comps2[i] == comps[i]);
                } else {
                    assert(comps2[i] == comp);
                }
            }
            assert forall|v: int| 0 <= v < self.n && #[trigger] cid2[v] >= 0 implies comps2[cid2[v]].contains(v as usize) by {
                if in_comp(ord, on, u, v) {
                    assert(comps2[nc] == comp);
                } else {
                    assert(comps2[cid[v]] == comps[cid[v]]);
                }
            }
            assert forall|v: int, w: int|
                0 <= v < self.n && 0 <= w < self.n && #[trigger] cid2[v] >= 0 && cid2[v] == #[trigger] cid2[w]
                    implies self.reaches(v, w) by {
                if in_comp(ord, on, u, v) {
                    if !in_comp(ord, on, u, w) {
                        assert(cid[w] < nc);
                    }
                    self.lemma_comp_reaches_root(ord, low, now, on, cid, nc, order, fin, pidx, path, v);
                    assert(self.reaches(u, w)) by {
                        reveal(DirectedGraph::inv_reach);
                        reveal(DirectedGraph::inv_frames);
                        let lt = path.len() - 1;
                        assert(path[lt] == path.last());
                        assert(visited(ord, w));
                    }
                    self.lemma_reaches_trans(v, u, w);
                } else {
                    if in_comp(ord, on, u, w) {
                        assert(cid[v] < nc);
                    }
                }
            }
        }
    }
}

impl DirectedGraph {
    /// Closing a component at the last active vertex and retiring that frame
    /// keeps the invariants of the frames, of reachability and of `low`.
    proof fn lemma_close_frames(
        &self,
        ord: Seq<Option<usize>>,
        low: Seq<usize>,
        now: int,
        stack: Seq<usize>,
        on: Seq<bool>,
        cid: Seq<int>,
        order: Seq<int>,
        comps: Seq<Seq<usize>>,
        fin: Seq<bool>,
        pidx: Seq<int>,
        path: Seq<(usize, usize)>,
        on2: Seq<bool>,
        cid2: Seq<int>,
    )
        requires
            self.tarjan_inv(ord, low, now, stack, on, cid, order, comps, fin, pidx, path, None),
            path.len() > 0,
            low[path.last().0 as int] == num(ord, path.last().0 as int),
            closes(self.n as int, ord, on, cid, comps.len() as int, path.last().0 as int, on2, cid2),
        ensures
            self.inv_frames(ord, on2, fin.update(path.last().0 as int, true), pidx, path.drop_last(), None),
            self.inv_reach(ord, path.drop_last()),
            self.inv_bottom(ord, on2, path.drop_last()),
            self.inv_low(ord, low, on2, order),
            self.inv_fin(ord, low, on2, fin.update(path.last().0 as int, true), path.drop_last()),
    {
        let u = path.last().0 as int;
        let lt = path.len() - 1;
        let fin2 = fin.update(u, true);
        let path2 = path.drop_last();
        assert(path[lt] == path.last());
        assert(fin.len() == self.n) by {
            reveal(DirectedGraph::inv_frames);
        }
        assert forall|t: int| 0 <= t < path2.len() implies #[trigger] path2[t] == path[t] by {}
        assert forall|t: int| 0 <= t < path.len() implies (#[trigger] path[t]).0 < self.n && on[path[t].0 as int]
            && visited(ord, path[t].0 as int) by {
            reveal(DirectedGraph::inv_frames);
            reveal(DirectedGraph::inv_cid);
        }
        assert forall|t: int| 0 <= t < lt implies num(ord, (#[trigger] path[t]).0 as int) < num(ord, u)
            && path[t].0 != u by {
            reveal(DirectedGraph::inv_frames);
        }
        assert(self.inv_frames(ord, on2, fin2, pidx, path2, None)) by {
            reveal(DirectedGraph::inv_frames);
            assert forall|t: int| 0 <= t < path2.len() implies (#[trigger] path2[t]).0 < self.n
                && on2[path2[t].0 as int] && !fin2[path2[t].0 as int] && path2[t].1 <= self.deg(
                path2[t].0 as int,
            ) && pidx[path2[t].0 as int] == t by {
                assert(path2[t] == path[t]);
                assert(!in_comp(ord, on, u, path[t].0 as int));
            }
            assert forall|t: int| 0 <= t < path2.len() - 1 implies (#[trigger] path2[t]).1 >= 1
                && self.succ(path2[t].0 as int, path2[t].1 - 1) == path2[t + 1].0 by {
                assert(path2[t] == path[t] && path2[t + 1] == path[t + 1]);
            }
            assert forall|t1: int, t2: int| 0 <= t1 < t2 < path2.len() implies num(
                ord,
                (#[trigger] path2[t1]).0 as int,
            ) < num(ord, (#[trigger] path2[t2]).0 as int) by {
                assert(path2[t1] == path[t1] && path2[t2] == path[t2]);
            }
            assert forall|v: int| 0 <= v < self.n && visited(ord, v) && !#[trigger] fin2[v] implies 0
                <= pidx[v] < path2.len() && path2[pidx[v]].0 == v by {
                assert(v != u);
                assert(0 <= pidx[v] < path.len() && path[pidx[v]].0 == v);
                assert(pidx[v] != lt);
            }
        }
        assert(self.inv_reach(ord, path2)) by {
            reveal(DirectedGraph::inv_reach);
            assert forall|t: int, v: int|
                0 <= t < path2.len() && 0 <= v < self.n && visited(ord, v) && num(ord, v) >= num(
                    ord,
                    (#[trigger] path2[t]).0 as int,
                ) implies #[trigger] self.reaches(path2[t].0 as int, v) by {
                assert(path2[t] == path[t]);
            }
        }
        assert(self.inv_bottom(ord, on2, path2)) by {
            reveal(DirectedGraph::inv_bottom);
            if path2.len() > 0 {
                assert(path2[0] == path[0]);
            } else {
                assert(path[0] == path.last());
                assert forall|v: int| 0 <= v < self.n implies !#[trigger] on2[v] by {
                    if on[v] {
                        assert(num(ord, v) >= num(ord, path[0].0 as int));
                    }
                }
            }
        }
        assert(self.inv_low(ord, low, on2, order)) by {
            reveal(DirectedGraph::inv_low);
            assert forall|v: int| 0 <= v < self.n && #[trigger] on2[v] implies low[v] <= num(ord, v)
                && on2[order[low[v] as int]] && self.reaches(v, order[low[v] as int]) by {
                let w = order[low[v] as int];
                assert(on[v] && on[w]);
                assert(visited(ord, v)) by {
                    reveal(DirectedGraph::inv_cid);
                }
                assert(0 <= w < self.n && num(ord, w) == low[v]) by {
                    reveal(DirectedGraph::inv_num);
                    assert(num(ord, v) < now);
                }
                assert(!in_comp(ord, on, u, w));
            }
        }
        assert(self.inv_fin(ord, low, on2, fin2, path2)) by {
            reveal(DirectedGraph::inv_fin);
            assert forall|t: int, v: int|
                0 <= t < path2.len() && 0 <= v < self.n && #[trigger] on2[v] && fin2[v]
                    && #[trigger] in_gap(ord, path2, t, v) implies low[path2[t].0 as int] <= low[v] by {
                assert(v != u);
                assert(on[v] && fin[v]);
                assert(path2[t] == path[t]);
                if t < path2.len() - 1 {
                    assert(path2[t + 1] == path[t + 1]);
                } else {
                    assert(num(ord, v) < num(ord, u));
                }
                assert(in_gap(ord, path, t, v));
            }
        }
    }

    /// Closing a component at the last active vertex, whose edges have all been
    /// examined, and retiring that frame keeps the invariants of the edges.
    proof fn lemma_close_edges(
        &self,
        ord: Seq<Option<usize>>,
        low: Seq<usize>,
        now: int,
        stack: Seq<usize>,
        on: Seq<bool>,
        cid: Seq<int>,
        order: Seq<int>,
        comps: Seq<Seq<usize>>,
        fin: Seq<bool>,
        pidx: Seq<int>,
        path: Seq<(usize, usize)>,
        on2: Seq<bool>,
        cid2: Seq<int>,
    )
        requires
            self.tarjan_inv(ord, low, now, stack, on, cid, order, comps, fin, pidx, path, None),
            path.len() > 0,
            path.last().1 == self.deg(path.last().0 as int),
            low[path.last().0 as int] == num(ord, path.last().0 as int),
            closes(self.n as int, ord, on, cid, comps.len() as int, path.last().0 as int, on2, cid2),
        ensures
            self.inv_edges(ord, low, on2, cid2, fin.update(path.last().0 as int, true), path.drop_last(), None),
    {
        let u = path.last().0 as int;
        let lt = path.len() - 1;
        let nc = comps.len() as int;
        let fin2 = fin.update(u, true);
        let path2 = path.drop_last();
        assert(path[lt] == path.last());
        assert(fin.len() == self.n) by {
            reveal(DirectedGraph::inv_frames);
        }
        assert(0 <= u < self.n && on[u]) by {
            reveal(DirectedGraph::inv_frames);
        }
        // every examined edge stays examined
        assert forall|v: int, w: int|
            0 <= v < self.n && 0 <= w < self.n && #[trigger] self.edge_done(ord, low, on, cid, v, w) implies
            self.edge_done(ord, low, on2, cid2, v, w) by {
            reveal(DirectedGraph::inv_cid);
        }
        assert(self.inv_edges_comp(cid2)) by {
            reveal(DirectedGraph::inv_edges_comp);
            reveal(DirectedGraph::inv_cid);
            assert forall|v: int, k: int|
                0 <= v < self.n && 0 <= k < self.deg(v) && cid2[v] >= 0 implies cid2[#[trigger] self.succ(v, k)] >= 0
                    && cid2[self.succ(v, k)] <= cid2[v] by {
                let w = self.succ(v, k);
                assert(0 <= w < self.n);
                if in_comp(ord, on, u, v) {
                    self.lemma_comp_reaches_root(ord, low, now, on, cid, nc, order, fin, pidx, path, v);
                    assert(self.edge_done(ord, low, on, cid, v, w)) by {
                        if v == u {
                            reveal(DirectedGraph::inv_edges_path);
                            assert(k < path[lt].1);
                        } else {
                            reveal(DirectedGraph::inv_edges_fin);
                        }
                    }
                } else {
                    assert(cid[v] >= 0);
                    assert(cid[w] >= 0 && cid[w] <= cid[v]);
                }
            }
        }
        assert(self.inv_edges_fin(ord, low, on2, cid2, fin2)) by {
            reveal(DirectedGraph::inv_edges_fin);
            assert forall|v: int, k: int|
                0 <= v < self.n && 0 <= k < self.deg(v) && on2[v] && fin2[v] implies self.edge_done(
                ord,
                low,
                on2,
                cid2,
                v,
                #[trigger] self.succ(v, k),
            ) by {
                assert(v != u);
                assert(on[v] && fin[v]);
                let w = self.succ(v, k);
                assert(0 <= w < self.n);
                assert(self.edge_done(ord, low, on, cid, v, w));
            }
        }
        assert(self.inv_edges_path(ord, low, on2, cid2, path2, None)) by {
            reveal(DirectedGraph::inv_edges_path);
            assert forall|t: int, k: int|
                0 <= t < path2.len() && 0 <= k < (#[trigger] path2[t]).1 implies ((t == path2.len() - 1
                && k == path2[t].1 - 1 && false) || self.edge_done(
                ord,
                low,
                on2,
                cid2,
                path2[t].0 as int,
                #[trigger] self.succ(path2[t].0 as int, k),
            )) by {
                assert(path2[t] == path[t]);
                assert(path[t].0 < self.n && path[t].1 <= self.deg(path[t].0 as int)) by {
                    reveal(DirectedGraph::inv_frames);
                }
                let w = self.succ(path[t].0 as int, k);
                assert(0 <= w < self.n);
                assert(self.edge_done(ord, low, on, cid, path[t].0 as int, w));
            }
        }
    }
}

impl DirectedGraph {
    /// Closing the component of a finished root `u` (the vertices from `u` up
    /// to the top of the stack) and retiring its frame keeps the invariant.
    proof fn lemma_close(
        &self,
        ord: Seq<Option<usize>>,
        low: Seq<usize>,
        now: int,
        stack: Seq<usize>,
        on: Seq<bool>,
        cid: Seq<int>,
        order: Seq<int>,
        comps: Seq<Seq<usize>>,
        fin: Seq<bool>,
        pidx: Seq<int>,
        path: Seq<(usize, usize)>,
        j: int,
        on2: Seq<bool>,
        cid2: Seq<int>,
        comp: Seq<usize>,
    )
        requires
            self.tarjan_inv(ord, low, now, stack, on, cid, order, comps, fin, pidx, path, None),
            path.len() > 0,
            path.last().1 == self.deg(path.last().0 as int),
            low[path.last().0 as int] == num(ord, path.last().0 as int),
            0 <= j < stack.len(),
            stack[j] == path.last().0,
            top_down(stack, j, comp),
            closes(self.n as int, ord, on, cid, comps.len() as int, path.last().0 as int, on2, cid2),
        ensures
            self.tarjan_inv(
                ord,
                low,
                now,
                stack.take(j),
                on2,
                cid2,
                order,
                comps.push(comp),
                fin.update(path.last().0 as int, true),
                pidx,
                path.drop_last(),
                None,
            ),
            path.len() > 1 ==> low[path[path.len() - 2].0 as int] <= low[path.last().0 as int],
    {
        self.lemma_close_cid_stack_comps(ord, low, now, stack, on, cid, order, comps, fin, pidx, path, j, on2, cid2, comp);
        self.lemma_close_frames(ord, low, now, stack, on, cid, order, comps, fin, pidx, path, on2, cid2);
        self.lemma_close_edges(ord, low, now, stack, on, cid, order, comps, fin, pidx, path, on2, cid2);
        if path.len() > 1 {
            let lt = path.len() - 1;
            let p = path[lt - 1].0 as int;
            assert(path[lt] == path.last());
            assert(0 <= p < self.n && on[p] && num(ord, p) < num(ord, path[lt].0 as int)) by {
                reveal(DirectedGraph::inv_frames);
            }
            assert(low[p] <= num(ord, p)) by {
                reveal(DirectedGraph::inv_low);
            }
        }
    }

    /// A finished vertex `u` with `low[u] < num(u)` is not the root of its
    /// search tree.
    proof fn lemma_nonroot_parent(
        &self,
        ord: Seq<Option<usize>>,
        low: Seq<usize>,
        now: int,
        stack: Seq<usize>,
        on: Seq<bool>,
        cid: Seq<int>,
        order: Seq<int>,
        comps: Seq<Seq<usize>>,
        fin: Seq<bool>,
        pidx: Seq<int>,
        path: Seq<(usize, usize)>,
    )
        requires
            self.tarjan_inv(ord, low, now, stack, on, cid, order, comps, fin, pidx, path, None),
            path.len() > 0,
            low[path.last().0 as int] != num(ord, path.last().0 as int),
        ensures
            path.len() > 1,
            low[path.last().0 as int] < num(ord, path.last().0 as int),
    {
        let lt = path.len() - 1;
        let u = path.last().0 as int;
        assert(path[lt] == path.last());
        assert(0 <= u < self.n && on[u] && visited(ord, u)) by {
            reveal(DirectedGraph::inv_frames);
            reveal(DirectedGraph::inv_cid);
        }
        let w = order[low[u] as int];
        assert(low[u] <= num(ord, u) && on[w]) by {
            reveal(DirectedGraph::inv_low);
        }
        assert(0 <= w < self.n && num(ord, w) == low[u]) by {
            reveal(DirectedGraph::inv_num);
            assert(num(ord, u) < now);
        }
        if path.len() == 1 {
            assert(path[0] == path.last());
            assert(num(ord, w) >= num(ord, path[0].0 as int)) by {
                reveal(DirectedGraph::inv_bottom);
            }
        }
    }

    /// Taking `low[p] = min(low[p], low[u])` for the parent `p` of the last
    /// active vertex `u` keeps the invariant.
    proof fn lemma_lower_parent(
        &self,
        ord: Seq<Option<usize>>,
        low: Seq<usize>,
        now: int,
        stack: Seq<usize>,
        on: Seq<bool>,
        cid: Seq<int>,
        order: Seq<int>,
        comps: Seq<Seq<usize>>,
        fin: Seq<bool>,
        pidx: Seq<int>,
        path: Seq<(usize, usize)>,
    )
        requires
            self.tarjan_inv(ord, low, now, stack, on, cid, order, comps, fin, pidx, path, None),
            path.len() > 1,
            low[path.last().0 as int] < low[path[path.len() - 2].0 as int],
        ensures
            self.tarjan_inv(
                ord,
                low.update(path[path.len() - 2].0 as int, low[path.last().0 as int]),
                now,
                stack,
                on,
                cid,
                order,
                comps,
                fin,
                pidx,
                path,
                None,
            ),
    {
        let lt = path.len() - 1;
        let u = path.last().0 as int;
        let p = path[lt - 1].0 as int;
        assert(path[lt] == path.last());
        assert(0 <= u < self.n && on[u] && visited(ord, u) && 0 <= p < self.n && on[p] && !fin[p]
            && num(ord, p) < num(ord, u)) by {
            reveal(DirectedGraph::inv_frames);
            reveal(DirectedGraph::inv_cid);
        }
        assert(forall|t: int| 0 <= t < path.len() ==> (#[trigger] path[t]).0 < self.n) by {
            reveal(DirectedGraph::inv_frames);
        }
        let w = order[low[u] as int];
        assert(low[u] <= num(ord, u) && on[w] && self.reaches(u, w)) by {
            reveal(DirectedGraph::inv_low);
        }
        assert(0 <= w < self.n && num(ord, w) == low[u] && order[num(ord, w)] == w) by {
            reveal(DirectedGraph::inv_num);
            assert(num(ord, u) < now);
        }
        assert(self.reaches(p, u)) by {
            reveal(DirectedGraph::inv_reach);
            assert(path[lt - 1].0 == p);
        }
        self.lemma_reaches_trans(p, u, w);
        assert(low.len() == self.n) by {
            reveal(DirectedGraph::inv_cid);
        }
        let low2 = low.update(p, low[u]);
        self.lemma_lower_low(ord, low, on, order, p, w);
        self.lemma_lower_fin(ord, low, low2, on, fin, path);
        self.lemma_lower_edges(ord, low, low2, on, cid, fin, path, None);
        assert(self.inv_cid(ord, low2, on, cid, comps.len() as int)) by {
            reveal(DirectedGraph::inv_cid);
        }
    }

    /// Retiring the frame of a finished vertex `u` with `low[u] < num(u)`,
    /// whose parent's `low` is no higher than its own, keeps the invariant;
    /// `u` stays on the stack.
    proof fn lemma_pop_frame(
        &self,
        ord: Seq<Option<usize>>,
        low: Seq<usize>,
        now: int,
        stack: Seq<usize>,
        on: Seq<bool>,
        cid: Seq<int>,
        order: Seq<int>,
        comps: Seq<Seq<usize>>,
        fin: Seq<bool>,
        pidx: Seq<int>,
        path: Seq<(usize, usize)>,
    )
        requires
            self.tarjan_inv(ord, low, now, stack, on, cid, order, comps, fin, pidx, path, None),
            path.len() > 1,
            path.last().1 == self.deg(path.last().0 as int),
            low[path.last().0 as int] < num(ord, path.last().0 as int),
            low[path[path.len() - 2].0 as int] <= low[path.last().0 as int],
        ensures
            self.tarjan_inv(
                ord,
                low,
                now,
                stack,
                on,
                cid,
                order,
                comps,
                fin.update(path.last().0 as int, true),
                pidx,
                path.drop_last(),
                None,
            ),
    {
        let lt = path.len() - 1;
        let u = path.last().0 as int;
        let fin2 = fin.update(u, true);
        let path2 = path.drop_last();
        assert(path[lt] == path.last());
        assert(fin.len() == self.n) by {
            reveal(DirectedGraph::inv_frames);
        }
        assert forall|t: int| 0 <= t < path2.len() implies #[trigger] path2[t] == path[t] by {}
        assert forall|t: int| 0 <= t < path.len() implies (#[trigger] path[t]).0 < self.n && on[path[t].0 as int]
            && path[t].1 <= self.deg(path[t].0 as int) by {
            reveal(DirectedGraph::inv_frames);
        }
        assert forall|t: int| 0 <= t < lt implies num(ord, (#[trigger] path[t]).0 as int) < num(ord, u)
            && path[t].0 != u by {
            reveal(DirectedGraph::inv_frames);
        }
        assert(self.inv_frames(ord, on, fin2, pidx, path2, None)) by {
            reveal(DirectedGraph::inv_frames);
            assert forall|t: int| 0 <= t < path2.len() implies (#[trigger] path2[t]).0 < self.n
                && on[path2[t].0 as int] && !fin2[path2[t].0 as int] && path2[t].1 <= self.deg(
                path2[t].0 as int,
            ) && pidx[path2[t].0 as int] == t by {
                assert(path2[t] == path[t]);
            }
            assert forall|t: int| 0 <= t < path2.len() - 1 implies (#[trigger] path2[t]).1 >= 1
                && self.succ(path2[t].0 as int, path2[t].1 - 1) == path2[t + 1].0 by {
                assert(path2[t] == path[t] && path2[t + 1] == path[t + 1]);
            }
            assert forall|t1: int, t2: int| 0 <= t1 < t2 < path2.len() implies num(
                ord,
                (#[trigger] path2[t1]).0 as int,
            ) < num(ord, (#[trigger] path2[t2]).0 as int) by {
                assert(path2[t1] == path[t1] && path2[t2] == path[t2]);
            }
            assert forall|v: int| 0 <= v < self.n && visited(ord, v) && !#[trigger] fin2[v] implies 0
                <= pidx[v] < path2.len() && path2[pidx[v]].0 == v by {
                assert(v != u);
                assert(0 <= pidx[v] < path.len() && path[pidx[v]].0 == v);
                assert(pidx[v] != lt);
            }
        }
        assert(self.inv_reach(ord, path2)) by {
            reveal(DirectedGraph::inv_reach);
            assert forall|t: int, v: int|
                0 <= t < path2.len() && 0 <= v < self.n && visited(ord, v) && num(ord, v) >= num(
                    ord,
                    (#[trigger] path2[t]).0 as int,
                ) implies #[trigger] self.reaches(path2[t].0 as int, v) by {
                assert(path2[t] == path[t]);
            }
        }
        assert(self.inv_bottom(ord, on, path2)) by {
            reveal(DirectedGraph::inv_bottom);
            assert(path2[0] == path[0]);
        }
        assert(self.inv_fin(ord, low, on, fin2, path2)) by {
            reveal(DirectedGraph::inv_fin);
            assert forall|v: int| 0 <= v < self.n && #[trigger] on[v] && fin2[v] implies low[v] < num(ord, v) by {
                if v != u {
                    assert(fin[v]);
                }
            }
            assert forall|t: int, v: int|
                0 <= t < path2.len() && 0 <= v < self.n && #[trigger] on[v] && fin2[v]
                    && #[trigger] in_gap(ord, path2, t, v) implies low[path2[t].0 as int] <= low[v] by {
                assert(path2[t] == path[t]);
                if v == u {
                    assert(t == lt - 1) by {
                        if t < lt - 1 {
                            assert(path2[t + 1] == path[t + 1]);
                        }
                    }
                } else {
                    assert(fin[v]);
                    if t < path2.len() - 1 {
                        assert(path2[t + 1] == path[t + 1]);
                        assert(in_gap(ord, path, t, v));
                    } else if num(ord, v) < num(ord, u) {
                        assert(in_gap(ord, path, t, v));
                    } else {
                        assert(num(ord, v) != num(ord, u)) by {
                            reveal(DirectedGraph::inv_num);
                            reveal(DirectedGraph::inv_cid);
                            assert(visited(ord, u) && visited(ord, v));
                            assert(order[num(ord, u)] == u && order[num(ord, v)] == v);
                        }
                        assert(in_gap(ord, path, lt, v));
                    }
                }
            }
        }
        assert(self.inv_edges_fin(ord, low, on, cid, fin2)) by {
            reveal(DirectedGraph::inv_edges_fin);
            assert forall|v: int, k: int|
                0 <= v < self.n && 0 <= k < self.deg(v) && on[v] && fin2[v] implies self.edge_done(
                ord,
                low,
                on,
                cid,
                v,
                #[trigger] self.succ(v, k),
            ) by {
                if v == u {
                    reveal(DirectedGraph::inv_edges_path);
                    assert(k < path[lt].1);
                } else {
                    assert(fin[v]);
                }
            }
        }
        assert(self.inv_edges_path(ord, low, on, cid, path2, None)) by {
            reveal(DirectedGraph::inv_edges_path);
            assert forall|t: int, k: int|
                0 <= t < path2.len() && 0 <= k < (#[trigger] path2[t]).1 implies ((t == path2.len() - 1
                && k == path2[t].1 - 1 && false) || self.edge_done(
                ord,
                low,
                on,
                cid,
                path2[t].0 as int,
                #[trigger] self.succ(path2[t].0 as int, k),
            )) by {
                assert(path2[t] == path[t]);
            }
        }
    }
}

/// The lists in reverse order.
pub open spec fn reversed(s: Seq<Seq<usize>>) -> Seq<Seq<usize>> {
    Seq::new(s.len(), |i: int| s[s.len() - 1 - i])
}

impl DirectedGraph {
    /// The state before the search: nothing numbered, nothing stacked.
    proof fn lemma_init(
        &self,
        ord: Seq<Option<usize>>,
        low: Seq<usize>,
        on: Seq<bool>,
        cid: Seq<int>,
        fin: Seq<bool>,
        pidx: Seq<int>,
    )
        requires
            self.wf(),
            ord == Seq::new(self.n as nat, |i: int| None::<usize>),
            low == Seq::new(self.n as nat, |i: int| 0usize),
            on == Seq::new(self.n as nat, |i: int| false),
            cid == Seq::new(self.n as nat, |i: int| -1int),
            fin == Seq::new(self.n as nat, |i: int| false),
            pidx == Seq::new(self.n as nat, |i: int| 0int),
        ensures
            self.tarjan_inv(ord, low, 0, Seq::empty(), on, cid, Seq::empty(), Seq::empty(), fin, pidx, Seq::empty(), None),
    {
        reveal(DirectedGraph::inv_num);
        reveal(DirectedGraph::inv_cid);
        reveal(DirectedGraph::inv_stack);
        reveal(DirectedGraph::inv_frames);
        reveal(DirectedGraph::inv_reach);
        reveal(DirectedGraph::inv_bottom);
        reveal(DirectedGraph::inv_low);
        reveal(DirectedGraph::inv_fin);
        reveal(DirectedGraph::inv_edges_comp);
        reveal(DirectedGraph::inv_edges_fin);
        reveal(DirectedGraph::inv_edges_path);
        reveal(DirectedGraph::inv_comps);
    }

    /// Between search trees, an unnumbered vertex can be entered as a new root.
    proof fn lemma_begin_tree(
        &self,
        ord: Seq<Option<usize>>,
        low: Seq<usize>,
        now: int,
        stack: Seq<usize>,
        on: Seq<bool>,
        cid: Seq<int>,
        order: Seq<int>,
        comps: Seq<Seq<usize>>,
        fin: Seq<bool>,
        pidx: Seq<int>,
        s: usize,
    )
        requires
            self.tarjan_inv(ord, low, now, stack, on, cid, order, comps, fin, pidx, Seq::empty(), None),
            s < self.n,
            !visited(ord, s as int),
        ensures
            self.tarjan_inv(ord, low, now, stack, on, cid, order, comps, fin, pidx, Seq::empty(), Some(s)),
    {
        reveal(DirectedGraph::inv_frames);
        reveal(DirectedGraph::inv_edges_path);
    }

    /// Along a walk, component ids never increase.
    proof fn lemma_walk_cid(&self, cid: Seq<int>, p: Seq<int>, i: int)
        requires
            self.wf(),
            self.inv_edges_comp(cid),
            forall|x: int| 0 <= x < self.n ==> #[trigger] cid[x] >= 0,
            self.is_path(p),
            0 <= i < p.len(),
        ensures
            cid[p[i]] <= cid[p[0]],
        decreases i,
    {
        if i > 0 {
            self.lemma_walk_cid(cid, p, i - 1);
            reveal(DirectedGraph::inv_edges_comp);
            let h = i - 1;
            assert(self.edge(p[h], p[h + 1]));
            assert(h + 1 == i);
            let j = choose|j: int| 0 <= j < self.deg(p[i - 1]) && #[trigger] self.succ(p[i - 1], j) == p[i];
            assert(0 <= p[i - 1] < self.n);
            assert(cid[self.succ(p[i - 1], j)] <= cid[p[i - 1]]);
        }
    }

    /// Reachability never increases the component id.
    proof fn lemma_reach_cid(&self, cid: Seq<int>, v: int, w: int)
        requires
            self.wf(),
            self.inv_edges_comp(cid),
            forall|x: int| 0 <= x < self.n ==> #[trigger] cid[x] >= 0,
            self.reaches(v, w),
        ensures
            cid[w] <= cid[v],
    {
        let p = choose|p: Seq<int>| #[trigger] self.is_path(p) && p[0] == v && p.last() == w;
        self.lemma_walk_cid(cid, p, p.len() - 1);
    }

    /// When every vertex is numbered and no frame is active, the components
    /// found, in reverse order, are the strongly connected components in
    /// topological order.
    proof fn lemma_final(
        &self,
        ord: Seq<Option<usize>>,
        low: Seq<usize>,
        now: int,
        stack: Seq<usize>,
        on: Seq<bool>,
        cid: Seq<int>,
        order: Seq<int>,
        comps: Seq<Seq<usize>>,
        fin: Seq<bool>,
        pidx: Seq<int>,
    )
        requires
            self.tarjan_inv(ord, low, now, stack, on, cid, order, comps, fin, pidx, Seq::empty(), None),
            forall|v: int| 0 <= v < self.n ==> #[trigger] visited(ord, v),
        ensures
            self.is_scc_decomposition(reversed(comps)),
    {
        let m = comps.len() as int;
        let r = reversed(comps);
        reveal(DirectedGraph::inv_comps);
        assert forall|x: int| 0 <= x < self.n implies 0 <= #[trigger] cid[x] < m by {
            reveal(DirectedGraph::inv_cid);
            reveal(DirectedGraph::inv_bottom);
            assert(visited(ord, x));
            assert(!on[x]);
        }
        assert forall|i: int| 0 <= i < r.len() implies #[trigger] r[i] == comps[m - 1 - i] by {}
        assert forall|i: int| 0 <= i < r.len() implies #[trigger] r[i].len() > 0 by {
            assert(r[i] == comps[m - 1 - i]);
        }
        assert forall|i: int, j: int| 0 <= i < r.len() && 0 <= j < r[i].len() implies #[trigger] r[i][j] < self.n
            && cid[r[i][j] as int] == m - 1 - i by {
            assert(r[i] == comps[m - 1 - i]);
        }
        assert forall|v: int| 0 <= v < self.n implies #[trigger] lists_contain(r, v) by {
            let c = cid[v];
            assert(comps[c].contains(v as usize));
            let j = choose|j: int| 0 <= j < comps[c].len() && comps[c][j] == v as usize;
            assert(r[m - 1 - c] == comps[c]);
            assert(r[m - 1 - c][j] == v);
        }
        assert forall|i1: int, j1: int, i2: int, j2: int|
            0 <= i1 < r.len() && 0 <= j1 < r[i1].len() && 0 <= i2 < r.len() && 0 <= j2 < r[i2].len()
                && #[trigger] r[i1][j1] == #[trigger] r[i2][j2] implies i1 == i2 && j1 == j2 by {
            assert(cid[r[i1][j1] as int] == m - 1 - i1);
            assert(cid[r[i2][j2] as int] == m - 1 - i2);
            assert(r[i1] == comps[m - 1 - i1]);
        }
        assert forall|i1: int, j1: int, i2: int, j2: int|
            0 <= i1 < r.len() && 0 <= j1 < r[i1].len() && 0 <= i2 < r.len() && 0 <= j2 < r[i2].len()
                implies ((self.reaches(#[trigger] r[i1][j1] as int, #[trigger] r[i2][j2] as int)
                && self.reaches(r[i2][j2] as int, r[i1][j1] as int)) <==> i1 == i2) by {
            let a = r[i1][j1] as int;
            let b = r[i2][j2] as int;
            assert(cid[a] == m - 1 - i1 && cid[b] == m - 1 - i2);
            if self.reaches(a, b) && self.reaches(b, a) {
                self.lemma_reach_cid(cid, a, b);
                self.lemma_reach_cid(cid, b, a);
            }
            if i1 == i2 {
                assert(cid[a] >= 0 && cid[a] == cid[b]);
                assert(self.reaches(a, b));
                assert(self.reaches(b, a));
            }
        }
        assert forall|i1: int, j1: int, i2: int, j2: int|
            0 <= i1 < r.len() && 0 <= j1 < r[i1].len() && 0 <= i2 < r.len() && 0 <= j2 < r[i2].len()
                && self.edge(#[trigger] r[i1][j1] as int, #[trigger] r[i2][j2] as int) implies i1 <= i2 by {
            let a = r[i1][j1] as int;
            let b = r[i2][j2] as int;
            assert(cid[a] == m - 1 - i1 && cid[b] == m - 1 - i2);
            self.lemma_reaches_refl(a);
            self.lemma_reaches_step(a, a, b);
            self.lemma_reach_cid(cid, a, b);
        }
    }
}

/// A vector of `n` copies of `x`.
pub(crate) fn filled<T: Copy>(n: usize, x: T) -> (v: Vec<T>)
    ensures
        v@ == Seq::new(n as nat, |i: int| x),
{
    let mut v: Vec<T> = Vec::new();
    let mut i: usize = 0;
    while i < n
        invariant
            i <= n,
            v@ == Seq::new(i as nat, |k: int| x),
        decreases n - i,
    {
        v.push(x);
        i = i + 1;
    }
    v
}

/// Pops the stack down to and including its topmost `u`, clearing the marks
/// of the popped vertices, and returns them in the order popped.
fn pop_component(scc_stack: &mut Vec<usize>, on_scc_stack: &mut Vec<bool>, u: usize) -> (component: Vec<usize>)
    requires
        old(scc_stack)@.contains(u),
        forall|i: int| 0 <= i < old(scc_stack)@.len() ==> #[trigger] old(scc_stack)@[i] < old(on_scc_stack)@.len(),
    ensures
        final(scc_stack)@.len() < old(scc_stack)@.len(),
        old(scc_stack)@[final(scc_stack)@.len() as int] == u,
        final(scc_stack)@ == old(scc_stack)@.take(final(scc_stack)@.len() as int),
        top_down(old(scc_stack)@, final(scc_stack)@.len() as int, component@),
        final(on_scc_stack)@.len() == old(on_scc_stack)@.len(),
        forall|v: int|
            0 <= v < old(on_scc_stack)@.len() ==> #[trigger] final(on_scc_stack)@[v] == (old(on_scc_stack)@[v]
                && !old(scc_stack)@.skip(final(scc_stack)@.len() as int).contains(v as usize)),
{
    let ghost s0 = scc_stack@;
    let ghost on0 = on_scc_stack@;
    let on_len = on_scc_stack.len();
    let mut component: Vec<usize> = Vec::new();
    loop
        invariant_except_break
            scc_stack@.contains(u),
        invariant
            scc_stack@.len() <= s0.len(),
            scc_stack@ == s0.take(scc_stack@.len() as int),
            top_down(s0, scc_stack@.len() as int, component@),
            on_scc_stack@.len() == on0.len(),
            on0.len() == on_len,
            forall|i: int| 0 <= i < s0.len() ==> #[trigger] s0[i] < on0.len(),
            forall|v: int|
                0 <= v < on0.len() ==> #[trigger] on_scc_stack@[v] == (on0[v] && !s0.skip(
                    scc_stack@.len() as int,
                ).contains(v as usize)),
        ensures
            scc_stack@.len() < s0.len(),
            s0[scc_stack@.len() as int] == u,
            scc_stack@ == s0.take(scc_stack@.len() as int),
            top_down(s0, scc_stack@.len() as int, component@),
            on_scc_stack@.len() == on0.len(),
            forall|v: int|
                0 <= v < on0.len() ==> #[trigger] on_scc_stack@[v] == (on0[v] && !s0.skip(
                    scc_stack@.len() as int,
                ).contains(v as usize)),
        decreases scc_stack@.len(),
    {
        let ghost before = scc_stack@;
        let node = scc_stack.pop().unwrap();
        let k = scc_stack.len();
        assert(node == s0[k as int]);
        on_scc_stack.set(node, false);
        component.push(node);
        assert forall|v: int| 0 <= v < on0.len() implies #[trigger] on_scc_stack@[v] == (on0[v]
            && !s0.skip(k as int).contains(v as usize)) by {
            let a = s0.skip(k as int);
            let b = s0.skip(k as int + 1);
            assert(a[0] == node);
            if b.contains(v as usize) {
                let i = choose|i: int| 0 <= i < b.len() && #[trigger] b[i] == v as usize;
                assert(a[i + 1] == v as usize);
            }
            if a.contains(v as usize) && v != node as int {
                let i = choose|i: int| 0 <= i < a.len() && #[trigger] a[i] == v as usize;
                assert(i > 0);
                assert(b[i - 1] == v as usize);
            }
        }
        assert(scc_stack@ == s0.take(k as int));
        if node == u {
            break;
        }
        assert(scc_stack@.contains(u)) by {
            let i = choose|i: int| 0 <= i < before.len() && before[i] == u;
            assert(i < k);
            assert(scc_stack@[i] == u);
        }
    }
    component
}

/// The lists in reverse order.
fn reverse_lists(mut lists: Vec<Vec<usize>>) -> (r: Vec<Vec<usize>>)
    ensures
        seqs_of(r@) == reversed(seqs_of(lists@)),
{
    let ghost l0 = lists@;
    let mut r: Vec<Vec<usize>> = Vec::new();
    while lists.len() > 0
        invariant
            lists@ == l0.take(lists@.len() as int),
            r@.len() + lists@.len() == l0.len(),
            forall|i: int| 0 <= i < r@.len() ==> #[trigger] r@[i]@ == l0[l0.len() - 1 - i]@,
        decreases lists@.len(),
    {
        let x = lists.pop().unwrap();
        r.push(x);
    }
    assert(seqs_of(r@) =~= reversed(seqs_of(l0)));
    r
}

/// Bytes held by a vector of optional numbers, as `deepsize::DeepSizeOf::deep_size_of`
/// counts them. The count depends on the capacity the allocator gave, so
/// nothing is stated of it.
#[verifier::external_body]
pub(crate) fn deep_size_options(v: &Vec<Option<usize>>) -> (r: usize) {
    v.deep_size_of()
}

/// Bytes held by a vector of numbers, as `deepsize::DeepSizeOf::deep_size_of`
/// counts them. The count depends on the capacity the allocator gave, so
/// nothing is stated of it.
#[verifier::external_body]
pub(crate) fn deep_size_numbers(v: &Vec<usize>) -> (r: usize) {
    v.deep_size_of()
}

/// Bytes held by a vector of flags, as `deepsize::DeepSizeOf::deep_size_of`
/// counts them. The count depends on the capacity the allocator gave, so
/// nothing is stated of it.
#[verifier::external_body]
pub(crate) fn deep_size_flags(v: &Vec<bool>) -> (r: usize) {
    v.deep_size_of()
}

/// Bytes held by a vector of lists, as `deepsize::DeepSizeOf::deep_size_of`
/// counts them. The count depends on the capacities the allocator gave, so
/// nothing is stated of it.
#[verifier::external_body]
pub(crate) fn deep_size_lists(v: &Vec<Vec<usize>>) -> (r: usize) {
    v.deep_size_of()
}

/// Bytes held by a vector of pairs, as `deepsize::DeepSizeOf::deep_size_of`
/// counts them. The count depends on the capacity the allocator gave, so
/// nothing is stated of it.
#[verifier::external_body]
pub(crate) fn deep_size_pairs(v: &Vec<(usize, usize)>) -> (r: usize) {
    v.deep_size_of()
}

impl DirectedGraph {
    /// Strong connected component decomposition (SCC) using Tarjan's algorithm.
    /// Returns the list of vertex sets of the SCCs, in topological order, and
    /// the bytes held by the working vectors at the end of the search.
    pub fn scc(&self) -> (res: (Vec<Vec<usize>>, usize))
        requires
            self.wf(),
        ensures
            self.is_scc_decomposition(seqs_of(res.0@)),
    {
        let n = self.n;
        let mut ord: Vec<Option<usize>> = filled(n, None);
        let mut low: Vec<usize> = filled(n, 0);
        let mut now_ord: usize = 0;
        let mut scc_stack: Vec<usize> = Vec::new();
        let mut on_scc_stack: Vec<bool> = filled(n, false);
        let mut components: Vec<Vec<usize>> = Vec::new();
        // To avoid stack overflow, replace recursion with an stack
        let mut dfs_stack: Vec<(usize, usize)> = Vec::new();
        let ghost mut cid: Seq<int> = Seq::new(n as nat, |i: int| -1int);
        let ghost mut order: Seq<int> = Seq::empty();
        let ghost mut comps: Seq<Seq<usize>> = Seq::empty();
        let ghost mut fin: Seq<bool> = Seq::new(n as nat, |i: int| false);
        let ghost mut pidx: Seq<int> = Seq::new(n as nat, |i: int| 0int);
        let ghost mut path: Seq<(usize, usize)> = Seq::empty();
        let ghost mut enter: Option<usize> = None;
        proof {
            self.lemma_init(ord@, low@, on_scc_stack@, cid, fin, pidx);
            assert(seqs_of(components@) =~= comps);
        }
        let mut start_node: usize = 0;
        while start_node < n
            invariant
                n == self.n,
                start_node <= n,
                self.tarjan_inv(ord@, low@, now_ord as int, scc_stack@, on_scc_stack@, cid, order, comps, fin, pidx, path, enter),
                path.len() == 0,
                enter is None,
                dfs_stack@.len() == 0,
                seqs_of(components@) == comps,
                forall|v: int| 0 <= v < start_node ==> #[trigger] visited(ord@, v),
            decreases n - start_node,
        {
            proof {
                assert(ord@.len() == n && low@.len() == n && on_scc_stack@.len() == n) by {
                    reveal(DirectedGraph::inv_num);
                    reveal(DirectedGraph::inv_cid);
                }
            }
            if ord[start_node].is_none() {
                dfs_stack.push((start_node, 0));
                proof {
                    assert(path =~= Seq::<(usize, usize)>::empty());
                    self.lemma_begin_tree(ord@, low@, now_ord as int, scc_stack@, on_scc_stack@, cid, order, comps, fin, pidx, start_node);
                    enter = Some(start_node);
                    assert(dfs_stack@ =~= path.push((start_node, 0usize)));
                }
                while dfs_stack.len() > 0
                    invariant
                        n == self.n,
                        start_node < n,
                        self.tarjan_inv(ord@, low@, now_ord as int, scc_stack@, on_scc_stack@, cid, order, comps, fin, pidx, path, enter),
                        enter matches Some(e) ==> dfs_stack@ == path.push((e, 0usize)),
                        enter is None ==> dfs_stack@ == path,
                        enter is None && path.len() > 0 ==> path.last().1 >= 1,
                        seqs_of(components@) == comps,
                        forall|v: int| 0 <= v < start_node ==> #[trigger] visited(ord@, v),
                        visited(ord@, start_node as int) || enter == Some(start_node),
                    decreases 3 * (n - now_ord) - (if enter is Some { 1int } else { 0int }) + path.len(),
                {
                    proof {
                        assert(ord@.len() == n && low@.len() == n && on_scc_stack@.len() == n && now_ord <= n) by {
                            reveal(DirectedGraph::inv_num);
                            reveal(DirectedGraph::inv_cid);
                        }
                    }
                    let ghost path0 = path;
                    let ghost enter0 = enter;
                    let top = dfs_stack.pop();
                    let (u, child_idx) = top.unwrap();
                    proof {
                        if enter is Some {
                            assert(u == enter->0 && child_idx == 0);
                            assert(dfs_stack@ =~= path);
                        } else {
                            assert(path.last() == (u, child_idx));
                            assert(child_idx >= 1);
                            assert(dfs_stack@ =~= path.drop_last());
                        }
                    }
                    if child_idx == 0 {
                        // Pre-order processing
                        proof {
                            assert(u < n) by {
                                reveal(DirectedGraph::inv_frames);
                            }
                            self.lemma_visit(ord@, low@, now_ord as int, scc_stack@, on_scc_stack@, cid, order, comps, fin, pidx, path, u);
                        }
                        let ghost ord_b = ord@;
                        ord.set(u, Some(now_ord));
                        low.set(u, now_ord);
                        scc_stack.push(u);
                        on_scc_stack.set(u, true);
                        proof {
                            order = order.push(u as int);
                            fin = fin.update(u as int, false);
                            pidx = pidx.update(u as int, path.len() as int);
                            path = path.push((u, 0usize));
                            enter = None;
                            assert(dfs_stack@ =~= path.drop_last());
                            assert forall|v: int| 0 <= v < start_node implies #[trigger] visited(ord@, v) by {
                                assert(visited(ord_b, v));
                                assert(ord@[v] == ord_b[v] || v == u);
                            }
                        }
                        now_ord = now_ord + 1;
                    }
                    let ghost now1 = now_ord;
                    let ghost plen = path.len();
                    proof {
                        assert(u < n && path.len() > 0 && path.last() == (u, child_idx)
                            && child_idx <= self.deg(u as int)) by {
                            reveal(DirectedGraph::inv_frames);
                            assert(path[path.len() - 1] == path.last());
                        }
                        assert(visited(ord@, start_node as int));
                    }
                    let mut found_new_child = false;
                    let children = &self.adj[u];
                    let mut i = child_idx;
                    while i < children.len()
                        invariant_except_break
                            enter is None,
                            path.last() == (u, i),
                            dfs_stack@ == path.drop_last(),
                            !found_new_child,
                        invariant
                            n == self.n,
                            start_node < n,
                            u < n,
                            children@ == self.adj@[u as int]@,
                            i <= children@.len(),
                            self.tarjan_inv(ord@, low@, now_ord as int, scc_stack@, on_scc_stack@, cid, order, comps, fin, pidx, path, enter),
                            path.len() == plen,
                            plen > 0,
                            now_ord == now1,
                            seqs_of(components@) == comps,
                            forall|v: int| 0 <= v < start_node ==> #[trigger] visited(ord@, v),
                            visited(ord@, start_node as int),
                        ensures
                            found_new_child ==> enter is Some && dfs_stack@ == path.push((enter->0, 0usize)),
                            !found_new_child ==> enter is None && path.last().0 == u && path.last().1
                                == children@.len() && dfs_stack@ == path.drop_last(),
                        decreases children@.len() - i,
                    {
                        let v = children[i];
                        proof {
                            assert(ord@.len() == n && low@.len() == n && on_scc_stack@.len() == n) by {
                                reveal(DirectedGraph::inv_num);
                                reveal(DirectedGraph::inv_cid);
                            }
                            assert(path[path.len() - 1] == path.last());
                            assert(v == self.succ(u as int, i as int));
                            assert(v < n);
                        }
                        if ord[v].is_none() {
                            proof {
                                self.lemma_advance_child(ord@, low@, on_scc_stack@, cid, fin, pidx, path, (i + 1) as usize, Some(v));
                                path = path.update(path.len() - 1, (u, (i + 1) as usize));
                                enter = Some(v);
                            }
                            dfs_stack.push((u, i + 1));
                            dfs_stack.push((v, 0));
                            proof {
                                assert(dfs_stack@ =~= path.push((v, 0usize)));
                            }
                            found_new_child = true;
                            break;
                        } else if on_scc_stack[v] {
                            let ov = ord[v].unwrap();
                            if ov < low[u] {
                                proof {
                                    let low2 = low@.update(u as int, ov);
                                    assert(0 <= v < n && order[num(ord@, v as int)] == v as int) by {
                                        reveal(DirectedGraph::inv_num);
                                        assert(visited(ord@, v as int));
                                    }
                                    assert(!fin[u as int] && forall|t: int| 0 <= t < path.len() ==> (#[trigger] path[t]).0 < self.n) by {
                                        reveal(DirectedGraph::inv_frames);
                                    }
                                    self.lemma_reaches_refl(u as int);
                                    self.lemma_edge_succ(u as int, i as int);
                                    self.lemma_reaches_step(u as int, u as int, v as int);
                                    self.lemma_lower_low(ord@, low@, on_scc_stack@, order, u as int, v as int);
                                    self.lemma_lower_fin(ord@, low@, low2, on_scc_stack@, fin, path);
                                    self.lemma_lower_edges(ord@, low@, low2, on_scc_stack@, cid, fin, path, None);
                                    assert(self.inv_cid(ord@, low2, on_scc_stack@, cid, comps.len() as int)) by {
                                        reveal(DirectedGraph::inv_cid);
                                    }
                                }
                                low.set(u, ov);
                            }
                            proof {
                                assert(self.edge_done(ord@, low@, on_scc_stack@, cid, u as int, v as int));
                                self.lemma_advance_child(ord@, low@, on_scc_stack@, cid, fin, pidx, path, (i + 1) as usize, None);
                                path = path.update(path.len() - 1, (u, (i + 1) as usize));
                                assert(dfs_stack@ =~= path.drop_last());
                            }
                        } else {
                            proof {
                                assert(cid[v as int] >= 0) by {
                                    reveal(DirectedGraph::inv_cid);
                                }
                                assert(self.edge_done(ord@, low@, on_scc_stack@, cid, u as int, v as int));
                                self.lemma_advance_child(ord@, low@, on_scc_stack@, cid, fin, pidx, path, (i + 1) as usize, None);
                                path = path.update(path.len() - 1, (u, (i + 1) as usize));
                                assert(dfs_stack@ =~= path.drop_last());
                            }
                        }
                        i = i + 1;
                    }
                    if found_new_child {
                        continue;
                    }
                    // Post-order processing
                    proof {
                        assert(path[path.len() - 1] == path.last());
                        assert(path.last().1 == self.deg(u as int));
                        assert(ord@.len() == n && low@.len() == n && on_scc_stack@.len() == n && visited(ord@, u as int)) by {
                            reveal(DirectedGraph::inv_num);
                            reveal(DirectedGraph::inv_cid);
                            reveal(DirectedGraph::inv_frames);
                        }
                        assert(path.len() > 1 ==> path[path.len() - 2].1 >= 1) by {
                            reveal(DirectedGraph::inv_frames);
                        }
                    }
                    let is_root = match ord[u] {
                        Some(x) => x == low[u],
                        None => false,
                    };
                    if is_root {
                        let ghost stack0 = scc_stack@;
                        let ghost on0 = on_scc_stack@;
                        proof {
                            assert(stack0.contains(u) && forall|k: int| 0 <= k < stack0.len() ==> #[trigger] stack0[k] < on0.len()) by {
                                reveal(DirectedGraph::inv_stack);
                                reveal(DirectedGraph::inv_frames);
                            }
                        }
                        let component = pop_component(&mut scc_stack, &mut on_scc_stack, u);
                        proof {
                            let j = scc_stack@.len() as int;
                            let nc = comps.len() as int;
                            let cid2 = Seq::new(n as nat, |v: int| if in_comp(ord@, on0, u as int, v) { nc } else { cid[v] });
                            self.lemma_stack_suffix(ord@, stack0, on0, j, u as int);
                            assert(closes(n as int, ord@, on0, cid, nc, u as int, on_scc_stack@, cid2));
                            assert(cid.len() == n) by {
                                reveal(DirectedGraph::inv_cid);
                            }
                            self.lemma_close(ord@, low@, now_ord as int, stack0, on0, cid, order, comps, fin, pidx, path, j, on_scc_stack@, cid2, component@);
                            cid = cid2;
                            comps = comps.push(component@);
                            fin = fin.update(u as int, true);
                            path = path.drop_last();
                        }
                        components.push(component);
                        proof {
                            assert(seqs_of(components@) =~= comps);
                        }
                    } else {
                        proof {
                            self.lemma_nonroot_parent(ord@, low@, now_ord as int, scc_stack@, on_scc_stack@, cid, order, comps, fin, pidx, path);
                        }
                    }
                    if dfs_stack.len() > 0 {
                        let parent = dfs_stack[dfs_stack.len() - 1].0;
                        proof {
                            if is_root {
                                assert(parent == path.last().0);
                            } else {
                                assert(parent == path[path.len() - 2].0);
                            }
                            assert(parent < n) by {
                                reveal(DirectedGraph::inv_frames);
                                if is_root {
                                    assert(path[path.len() - 1] == path.last());
                                }
                            }
                        }
                        let lu = low[u];
                        let lp = low[parent];
                        if lu < lp {
                            proof {
                                if is_root {
                                    assert(false);
                                }
                                self.lemma_lower_parent(ord@, low@, now_ord as int, scc_stack@, on_scc_stack@, cid, order, comps, fin, pidx, path);
                            }
                            low.set(parent, lu);
                        }
                    }
                    if !is_root {
                        proof {
                            self.lemma_pop_frame(ord@, low@, now_ord as int, scc_stack@, on_scc_stack@, cid, order, comps, fin, pidx, path);
                            fin = fin.update(u as int, true);
                            path = path.drop_last();
                        }
                    }
                    proof {
                        assert(dfs_stack@ =~= path);
                    }
                }
            }
            start_node = start_node + 1;
        }
        proof {
            assert(path =~= Seq::<(usize, usize)>::empty());
            self.lemma_final(ord@, low@, now_ord as int, scc_stack@, on_scc_stack@, cid, order, comps, fin, pidx);
        }
        let peak_memory_bytes = deep_size_options(&ord)
            .saturating_add(deep_size_numbers(&low))
            .saturating_add(deep_size_numbers(&scc_stack))
            .saturating_add(deep_size_flags(&on_scc_stack))
            .saturating_add(deep_size_lists(&components))
            .saturating_add(deep_size_pairs(&dfs_stack));
        // Reverse to get correct topological order
        let components = reverse_lists(components);
        (components, peak_memory_bytes)
    }
}

/// The sequence is strictly increasing.
pub open spec fn strictly_increasing(s: Seq<usize>) -> bool {
    forall|a: int, b: int| 0 <= a < b < s.len() ==> #[trigger] s[a] < #[trigger] s[b]
}

impl DirectedGraph {
    /// Some edge leads from a vertex of the `i`-th list to a vertex of the
    /// `x`-th list.
    pub open spec fn condensed_edge(&self, comps: Seq<Seq<usize>>, i: int, x: int) -> bool {
        exists|u: int, k: int|
            0 <= u < self.n && 0 <= k < self.deg(u) && #[trigger] comps[i].contains(u as usize)
                && comps[x].contains(#[trigger] self.succ(u, k) as usize)
    }

    /// For each vertex, the list of its predecessors (with repeats for
    /// repeated edges).
    fn predecessors(&self) -> (radj: Vec<Vec<usize>>)
        requires
            self.wf(),
        ensures
            radj@.len() == self.n,
            forall|v: int, q: int|
                0 <= v < self.n && 0 <= q < radj@[v]@.len() ==> #[trigger] radj@[v]@[q] < self.n
                    && self.edge(radj@[v]@[q] as int, v),
            forall|u: int, k: int|
                0 <= u < self.n && 0 <= k < self.deg(u) ==> radj@[#[trigger] self.succ(u, k)]@.contains(
                    u as usize,
                ),
    {
        let n = self.n;
        let mut radj: Vec<Vec<usize>> = Vec::new();
        let mut i: usize = 0;
        while i < n
            invariant
                n == self.n,
                i <= n,
                radj@.len() == i,
                forall|v: int| 0 <= v < i ==> (#[trigger] radj@[v])@.len() == 0,
            decreases n - i,
        {
            radj.push(Vec::new());
            i = i + 1;
        }
        let mut u: usize = 0;
        while u < n
            invariant
                self.wf(),
                n == self.n,
                u <= n,
                radj@.len() == n,
                forall|v: int, q: int|
                    0 <= v < n && 0 <= q < radj@[v]@.len() ==> #[trigger] radj@[v]@[q] < n
                        && self.edge(radj@[v]@[q] as int, v),
                forall|w: int, k: int|
                    0 <= w < u && 0 <= k < self.deg(w) ==> radj@[#[trigger] self.succ(w, k)]@.contains(
                        w as usize,
                    ),
            decreases n - u,
        {
            let children = &self.adj[u];
            let mut k: usize = 0;
            while k < children.len()
                invariant
                    self.wf(),
                    n == self.n,
                    u < n,
                    children@ == self.adj@[u as int]@,
                    k <= children@.len(),
                    radj@.len() == n,
                    forall|v: int, q: int|
                        0 <= v < n && 0 <= q < radj@[v]@.len() ==> #[trigger] radj@[v]@[q] < n
                            && self.edge(radj@[v]@[q] as int, v),
                    forall|w: int, j: int|
                        0 <= w < u && 0 <= j < self.deg(w) ==> radj@[#[trigger] self.succ(w, j)]@.contains(
                            w as usize,
                        ),
                    forall|j: int|
                        0 <= j < k ==> radj@[#[trigger] self.succ(u as int, j)]@.contains(u as usize),
                decreases children@.len() - k,
            {
                let v = children[k];
                assert(v == self.succ(u as int, k as int));
                let ghost old_radj = radj@;
                radj[v].push(u);
                proof {
                    assert forall|x: int, q: int|
                        0 <= x < n && 0 <= q < radj@[x]@.len() implies #[trigger] radj@[x]@[q] < n
                            && self.edge(radj@[x]@[q] as int, x) by {
                        if x == v as int {
                            if q < old_radj[x]@.len() {
                                assert(radj@[x]@[q] == old_radj[x]@[q]);
                            } else {
                                self.lemma_edge_succ(u as int, k as int);
                            }
                        } else {
                            assert(radj@[x] == old_radj[x]);
                        }
                    }
                    assert forall|x: int| #![trigger radj@[x]] 0 <= x < n implies forall|y: usize|
                        old_radj[x]@.contains(y) ==> radj@[x]@.contains(y) by {
                        if x == v as int {
                            assert forall|y: usize| old_radj[x]@.contains(y) implies radj@[x]@.contains(y) by {
                                let q = choose|q: int| 0 <= q < old_radj[x]@.len() && old_radj[x]@[q] == y;
                                assert(radj@[x]@[q] == y);
                            }
                        }
                    }
                    assert(radj@[v as int]@[radj@[v as int]@.len() - 1] == u);
                }
                k = k + 1;
            }
            u = u + 1;
        }
        radj
    }
}

/// Some edge leads from a vertex with id `c` to a vertex with id `x`.
pub open spec fn id_edge(g: &DirectedGraph, comp_id: Seq<usize>, c: int, x: int) -> bool {
    exists|u: int, k: int|
        0 <= u < g.n && 0 <= k < g.deg(u) && #[trigger] comp_id[u] == c && comp_id[#[trigger] g.succ(u, k)] == x
}

impl DirectedGraph {
    /// The id of the list that holds each vertex.
    fn component_ids(&self, sccs: &Vec<Vec<usize>>) -> (comp_id: Vec<usize>)
        requires
            self.wf(),
            self.is_scc_decomposition(seqs_of(sccs@)),
        ensures
            comp_id@.len() == self.n,
            forall|v: int| 0 <= v < self.n ==> #[trigger] comp_id@[v] < sccs@.len(),
            forall|v: int, i: int|
                0 <= v < self.n && 0 <= i < sccs@.len() && #[trigger] sccs@[i]@.contains(v as usize) ==> comp_id@[v] == i,
            forall|v: int| 0 <= v < self.n ==> sccs@[#[trigger] comp_id@[v] as int]@.contains(v as usize),
    {
        let ghost comps = seqs_of(sccs@);
        let mut comp_id: Vec<usize> = filled(self.n, 0);
        let mut i: usize = 0;
        while i < sccs.len()
            invariant
                self.wf(),
                self.is_scc_decomposition(comps),
                comps == seqs_of(sccs@),
                i <= sccs@.len(),
                comp_id@.len() == self.n,
                forall|i2: int, j: int|
                    0 <= i2 < i && 0 <= j < comps[i2].len() ==> comp_id@[#[trigger] comps[i2][j] as int] == i2,
            decreases sccs@.len() - i,
        {
            let comp = &sccs[i];
            assert(comp@ == comps[i as int]);
            let mut j: usize = 0;
            while j < comp.len()
                invariant
                    self.wf(),
                    self.is_scc_decomposition(comps),
                    comps == seqs_of(sccs@),
                    i < sccs@.len(),
                    comp@ == comps[i as int],
                    j <= comp@.len(),
                    comp_id@.len() == self.n,
                    forall|i2: int, j2: int|
                        0 <= i2 < i && 0 <= j2 < comps[i2].len() ==> comp_id@[#[trigger] comps[i2][j2] as int] == i2,
                    forall|j2: int| 0 <= j2 < j ==> comp_id@[#[trigger] comps[i as int][j2] as int] == i,
                decreases comp@.len() - j,
            {
                let v = comp[j];
                assert(v == comps[i as int][j as int]);
                assert(v < self.n);
                let ghost before = comp_id@;
                comp_id.set(v, i);
                assert forall|i2: int, j2: int|
                    0 <= i2 < i && 0 <= j2 < comps[i2].len() implies comp_id@[#[trigger] comps[i2][j2] as int] == i2 by {
                    assert(comps[i2][j2] != comps[i as int][j as int]);
                    assert(comp_id@[comps[i2][j2] as int] == before[comps[i2][j2] as int]);
                }
                assert forall|j2: int| 0 <= j2 < j + 1 implies comp_id@[#[trigger] comps[i as int][j2] as int] == i by {
                    if j2 < j {
                        assert(comps[i as int][j2] != comps[i as int][j as int]);
                    }
                }
                j = j + 1;
            }
            i = i + 1;
        }
        assert forall|v: int| 0 <= v < self.n implies #[trigger] comp_id@[v] < sccs@.len() && sccs@[comp_id@[v] as int]@.contains(v as usize) && (forall|i: int|
            0 <= i < sccs@.len() ==> (sccs@[i]@.contains(v as usize) <==> comp_id@[v] == i)) by {
            assert(lists_contain(comps, v));
            let (i1, j1) = choose|i1: int, j1: int| 0 <= i1 < comps.len() && 0 <= j1 < comps[i1].len() && #[trigger] comps[i1][j1] == v;
            assert(comp_id@[comps[i1][j1] as int] == i1);
            assert forall|i: int| 0 <= i < sccs@.len() implies (sccs@[i]@.contains(v as usize) <==> comp_id@[v] == i) by {
                assert(sccs@[i]@ == comps[i]);
                if sccs@[i]@.contains(v as usize) {
                    let j = choose|j: int| 0 <= j < comps[i].len() && comps[i][j] == v as usize;
                    assert(comps[i][j] == comps[i1][j1]);
                }
                if comp_id@[v] == i {
                    assert(comps[i1][j1] == v as usize);
                }
            }
        }
        comp_id
    }

    /// Compute SCC and condensed graph
    pub fn scc_and_condense(&self) -> (res: (Vec<Vec<usize>>, Self, usize))
        requires
            self.wf(),
        ensures
            self.is_scc_decomposition(seqs_of(res.0@)),
            res.1.n == res.0@.len(),
            res.1.adj@.len() == res.1.n,
            forall|i: int| 0 <= i < res.1.n ==> strictly_increasing(#[trigger] res.1.adj@[i]@),
            forall|i: int, q: int|
                0 <= i < res.1.n && 0 <= q < res.1.adj@[i]@.len() ==> #[trigger] res.1.adj@[i]@[q] < res.1.n,
            forall|i: int, x: int|
                #![trigger res.1.adj@[i]@.contains(x as usize)]
                #![trigger self.condensed_edge(seqs_of(res.0@), i, x)]
                0 <= i < res.1.n && 0 <= x < res.1.n ==> (res.1.adj@[i]@.contains(x as usize)
                    <==> self.condensed_edge(seqs_of(res.0@), i, x)),
            forall|i: int, q: int|
                0 <= i < res.1.n && 0 <= q < res.1.adj@[i]@.len() ==> i <= #[trigger] res.1.adj@[i]@[q],
    {
        let (sccs, peak_memory_bytes) = self.scc();
        let comp_id = self.component_ids(&sccs);
        let m = sccs.len();
        let radj = self.predecessors();
        let mut adj_condensed: Vec<Vec<usize>> = Vec::new();
        let mut c: usize = 0;
        while c < m
            invariant
                c <= m,
                adj_condensed@.len() == c,
                forall|i: int| 0 <= i < c ==> (#[trigger] adj_condensed@[i])@.len() == 0,
            decreases m - c,
        {
            adj_condensed.push(Vec::new());
            c = c + 1;
        }
        let mut cv: usize = 0;
        while cv < m
            invariant
                self.wf(),
                m == sccs@.len(),
                cv <= m,
                self.is_scc_decomposition(seqs_of(sccs@)),
                comp_id@.len() == self.n,
                forall|v: int| 0 <= v < self.n ==> #[trigger] comp_id@[v] < m,
                forall|v: int, i: int|
                    0 <= v < self.n && 0 <= i < m && #[trigger] sccs@[i]@.contains(v as usize) ==> comp_id@[v] == i,
                forall|v: int| 0 <= v < self.n ==> sccs@[#[trigger] comp_id@[v] as int]@.contains(v as usize),
                radj@.len() == self.n,
                forall|v: int, q: int|
                    0 <= v < self.n && 0 <= q < radj@[v]@.len() ==> #[trigger] radj@[v]@[q] < self.n
                        && self.edge(radj@[v]@[q] as int, v),
                forall|u: int, k: int|
                    0 <= u < self.n && 0 <= k < self.deg(u) ==> radj@[#[trigger] self.succ(u, k)]@.contains(u as usize),
                adj_condensed@.len() == m,
                forall|i: int| 0 <= i < m ==> strictly_increasing(#[trigger] adj_condensed@[i]@),
                forall|i: int, q: int| 0 <= i < m && 0 <= q < adj_condensed@[i]@.len() ==> #[trigger] adj_condensed@[i]@[q] < cv,
                forall|i: int, x: int|
                    0 <= i < m && 0 <= x < cv ==> (#[trigger] adj_condensed@[i]@.contains(x as usize) <==> id_edge(self, comp_id@, i, x)),
            decreases m - cv,
        {
            let comp = &sccs[cv];
            let mut jv: usize = 0;
            while jv < comp.len()
                invariant
                    self.wf(),
                    m == sccs@.len(),
                    cv < m,
                    comp@ == sccs@[cv as int]@,
                    jv <= comp@.len(),
                    self.is_scc_decomposition(seqs_of(sccs@)),
                    comp_id@.len() == self.n,
                    forall|v: int| 0 <= v < self.n ==> #[trigger] comp_id@[v] < m,
                    forall|v: int, i: int|
                        0 <= v < self.n && 0 <= i < m && #[trigger] sccs@[i]@.contains(v as usize) ==> comp_id@[v] == i,
                    forall|v: int| 0 <= v < self.n ==> sccs@[#[trigger] comp_id@[v] as int]@.contains(v as usize),
                    radj@.len() == self.n,
                    forall|v: int, q: int|
                        0 <= v < self.n && 0 <= q < radj@[v]@.len() ==> #[trigger] radj@[v]@[q] < self.n
                            && self.edge(radj@[v]@[q] as int, v),
                    forall|u: int, k: int|
                        0 <= u < self.n && 0 <= k < self.deg(u) ==> radj@[#[trigger] self.succ(u, k)]@.contains(u as usize),
                    adj_condensed@.len() == m,
                    forall|i: int| 0 <= i < m ==> strictly_increasing(#[trigger] adj_condensed@[i]@),
                    forall|i: int, q: int| 0 <= i < m && 0 <= q < adj_condensed@[i]@.len() ==> #[trigger] adj_condensed@[i]@[q] <= cv,
                    forall|i: int, x: int|
                        0 <= i < m && 0 <= x < cv ==> (#[trigger] adj_condensed@[i]@.contains(x as usize) <==> id_edge(self, comp_id@, i, x)),
                    forall|i: int| 0 <= i < m && #[trigger] adj_condensed@[i]@.contains(cv) ==> id_edge(self, comp_id@, i, cv as int),
                    forall|j2: int, p: int|
                        0 <= j2 < jv && 0 <= p < radj@[comp@[j2] as int]@.len() ==> adj_condensed@[comp_id@[#[trigger] radj@[comp@[j2] as int]@[p] as int] as int]@.contains(cv),
                decreases comp@.len() - jv,
            {
                let v = comp[jv];
                proof {
                    assert(sccs@[cv as int]@[jv as int] == v);
                    assert(seqs_of(sccs@)[cv as int][jv as int] == v);
                    assert(v < self.n);
                }
                let preds = &radj[v];
                let mut q: usize = 0;
                while q < preds.len()
                    invariant
                        self.wf(),
                        m == sccs@.len(),
                        cv < m,
                        comp@ == sccs@[cv as int]@,
                        jv < comp@.len(),
                        v == comp@[jv as int],
                        v < self.n,
                        self.is_scc_decomposition(seqs_of(sccs@)),
                        preds@ == radj@[v as int]@,
                        q <= preds@.len(),
                        comp_id@.len() == self.n,
                        forall|w: int| 0 <= w < self.n ==> #[trigger] comp_id@[w] < m,
                        forall|w: int, i: int|
                            0 <= w < self.n && 0 <= i < m && #[trigger] sccs@[i]@.contains(w as usize) ==> comp_id@[w] == i,
                        forall|w: int| 0 <= w < self.n ==> sccs@[#[trigger] comp_id@[w] as int]@.contains(w as usize),
                        radj@.len() == self.n,
                        forall|w: int, p: int|
                            0 <= w < self.n && 0 <= p < radj@[w]@.len() ==> #[trigger] radj@[w]@[p] < self.n
                                && self.edge(radj@[w]@[p] as int, w),
                        adj_condensed@.len() == m,
                        forall|i: int| 0 <= i < m ==> strictly_increasing(#[trigger] adj_condensed@[i]@),
                        forall|i: int, r: int| 0 <= i < m && 0 <= r < adj_condensed@[i]@.len() ==> #[trigger] adj_condensed@[i]@[r] <= cv,
                        forall|i: int, x: int|
                            0 <= i < m && 0 <= x < cv ==> (#[trigger] adj_condensed@[i]@.contains(x as usize) <==> id_edge(self, comp_id@, i, x)),
                        forall|i: int| 0 <= i < m && #[trigger] adj_condensed@[i]@.contains(cv) ==> id_edge(self, comp_id@, i, cv as int),
                        forall|j2: int, p: int|
                            0 <= j2 < jv && 0 <= p < radj@[comp@[j2] as int]@.len() ==> adj_condensed@[comp_id@[#[trigger] radj@[comp@[j2] as int]@[p] as int] as int]@.contains(cv),
                        forall|p: int| 0 <= p < q ==> adj_condensed@[comp_id@[#[trigger] preds@[p] as int] as int]@.contains(cv),
                    decreases preds@.len() - q,
                {
                    let u = preds[q];
                    let cu = comp_id[u];
                    let len = adj_condensed[cu].len();
                    let ghost before = adj_condensed@;
                    proof {
                        assert(sccs@[cv as int]@.contains(v));
                        assert(comp_id@[v as int] == cv);
                        assert(self.edge(u as int, v as int));
                        let k = choose|k: int| 0 <= k < self.deg(u as int) && #[trigger] self.succ(u as int, k) == v;
                        assert(comp_id@[self.succ(u as int, k)] == cv);
                        assert(id_edge(self, comp_id@, cu as int, cv as int));
                    }
                    if len == 0 || adj_condensed[cu][len - 1] != cv {
                        proof {
                            let s = before[cu as int]@;
                            assert forall|r: int| 0 <= r < s.len() implies s[r] < cv by {
                                assert(s[r] <= cv);
                                if s[r] == cv && r < len - 1 {
                                    assert(s[r] < s[len - 1]);
                                }
                            }
                        }
                        adj_condensed[cu].push(cv);
                        proof {
                            let s = before[cu as int]@;
                            assert(adj_condensed@[cu as int]@ == s.push(cv));
                            assert forall|i: int| 0 <= i < m implies strictly_increasing(#[trigger] adj_condensed@[i]@) by {
                                if i == cu as int {
                                    assert forall|a: int, b: int| 0 <= a < b < s.len() + 1 implies #[trigger] s.push(cv)[a] < #[trigger] s.push(cv)[b] by {
                                        if b == s.len() {
                                            assert(s[a] < cv);
                                        }
                                    }
                                } else {
                                    assert(adj_condensed@[i] == before[i]);
                                }
                            }
                            assert forall|i: int, x: int|
                                0 <= i < m && 0 <= x < cv implies (#[trigger] adj_condensed@[i]@.contains(x as usize) <==> id_edge(self, comp_id@, i, x)) by {
                                if i == cu as int {
                                    if s.push(cv).contains(x as usize) && x as usize != cv {
                                        let r = choose|r: int| 0 <= r < s.push(cv).len() && s.push(cv)[r] == x as usize;
                                        assert(s[r] == x as usize);
                                        assert(s.contains(x as usize));
                                    }
                                    if s.contains(x as usize) {
                                        let r = choose|r: int| 0 <= r < s.len() && s[r] == x as usize;
                                        assert(s.push(cv)[r] == x as usize);
                                    }
                                } else {
                                    assert(adj_condensed@[i] == before[i]);
                                }
                            }
                            assert forall|i: int| 0 <= i < m && #[trigger] adj_condensed@[i]@.contains(cv) implies id_edge(self, comp_id@, i, cv as int) by {
                                if i != cu as int {
                                    assert(adj_condensed@[i] == before[i]);
                                }
                            }
                            assert forall|i: int, y: usize| 0 <= i < m && #[trigger] before[i]@.contains(y) implies adj_condensed@[i]@.contains(y) by {
                                if i == cu as int {
                                    let r = choose|r: int| 0 <= r < s.len() && s[r] == y;
                                    assert(s.push(cv)[r] == y);
                                } else {
                                    assert(adj_condensed@[i] == before[i]);
                                }
                            }
                            assert forall|j2: int, p: int|
                                0 <= j2 < jv && 0 <= p < radj@[comp@[j2] as int]@.len() implies adj_condensed@[comp_id@[#[trigger] radj@[comp@[j2] as int]@[p] as int] as int]@.contains(cv) by {
                                let w = comp@[j2] as int;
                                assert(0 <= w < self.n) by {
                                    assert(seqs_of(sccs@)[cv as int] == comp@);
                                    assert(seqs_of(sccs@)[cv as int][j2] == comp@[j2]);
                                }
                                assert(radj@[w]@[p] < self.n);
                                let i = comp_id@[radj@[w]@[p] as int] as int;
                                assert(before[i]@.contains(cv));
                            }
                            assert forall|p: int| 0 <= p < q implies adj_condensed@[comp_id@[#[trigger] preds@[p] as int] as int]@.contains(cv) by {
                                let i = comp_id@[preds@[p] as int] as int;
                                assert(before[i]@.contains(cv));
                            }
                            assert(s.push(cv)[s.len() as int] == cv);
                        }
                    } else {
                        proof {
                            assert(before[cu as int]@[len - 1] == cv);
                        }
                    }
                    proof {
                        assert(adj_condensed@[cu as int]@.contains(cv));
                    }
                    q = q + 1;
                }
                proof {
                    assert forall|j2: int, p: int|
                        0 <= j2 < jv + 1 && 0 <= p < radj@[comp@[j2] as int]@.len() implies adj_condensed@[comp_id@[#[trigger] radj@[comp@[j2] as int]@[p] as int] as int]@.contains(cv) by {
                        if j2 == jv {
                            assert(comp@[j2] == v);
                            assert(radj@[comp@[j2] as int]@[p] == preds@[p]);
                        }
                    }
                }
                jv = jv + 1;
            }
            proof {
                assert forall|i: int, x: int|
                    0 <= i < m && 0 <= x < cv + 1 implies (#[trigger] adj_condensed@[i]@.contains(x as usize) <==> id_edge(self, comp_id@, i, x)) by {
                    if x == cv && id_edge(self, comp_id@, i, x) {
                        let (u, k) = choose|u: int, k: int|
                            0 <= u < self.n && 0 <= k < self.deg(u) && #[trigger] comp_id@[u] == i && comp_id@[#[trigger] self.succ(u, k)] == x;
                        let w = self.succ(u, k);
                        assert(0 <= w < self.n);
                        assert(sccs@[cv as int]@.contains(w as usize));
                        let j2 = choose|j2: int| 0 <= j2 < comp@.len() && comp@[j2] == w as usize;
                        assert(radj@[w]@.contains(u as usize));
                        let p = choose|p: int| 0 <= p < radj@[w]@.len() && radj@[w]@[p] == u as usize;
                        assert(adj_condensed@[comp_id@[radj@[comp@[j2] as int]@[p] as int] as int]@.contains(cv));
                    }
                }
            }
            cv = cv + 1;
        }
        proof {
            let comps = seqs_of(sccs@);
            assert forall|i: int, x: int|
                0 <= i < m && 0 <= x < m implies (id_edge(self, comp_id@, i, x) <==> self.condensed_edge(comps, i, x)) by {
                if id_edge(self, comp_id@, i, x) {
                    let (u, k) = choose|u: int, k: int|
                        0 <= u < self.n && 0 <= k < self.deg(u) && #[trigger] comp_id@[u] == i && comp_id@[#[trigger] self.succ(u, k)] == x;
                    let w = self.succ(u, k);
                    assert(0 <= w < self.n);
                    assert(comps[i] == sccs@[i]@);
                    assert(comps[x] == sccs@[x]@);
                    assert(comps[i].contains(u as usize));
                    assert(comps[x].contains(self.succ(u, k) as usize));
                }
                if self.condensed_edge(comps, i, x) {
                    let (u, k) = choose|u: int, k: int|
                        0 <= u < self.n && 0 <= k < self.deg(u) && #[trigger] comps[i].contains(u as usize)
                            && comps[x].contains(#[trigger] self.succ(u, k) as usize);
                    let w = self.succ(u, k);
                    assert(0 <= w < self.n);
                    assert(comps[i] == sccs@[i]@);
                    assert(comps[x] == sccs@[x]@);
                    assert(comp_id@[u] == i);
                    assert(comp_id@[w] == x);
                }
            }
        }
        proof {
            let comps = seqs_of(sccs@);
            assert forall|i: int, q: int|
                0 <= i < m && 0 <= q < adj_condensed@[i]@.len() implies i <= #[trigger] adj_condensed@[i]@[q] by {
                let x = adj_condensed@[i]@[q] as int;
                assert(adj_condensed@[i]@.contains(x as usize));
                assert(self.condensed_edge(comps, i, x));
                let (u, k) = choose|u: int, k: int|
                    0 <= u < self.n && 0 <= k < self.deg(u) && #[trigger] comps[i].contains(u as usize)
                        && comps[x].contains(#[trigger] self.succ(u, k) as usize);
                let j1 = choose|j: int| 0 <= j < comps[i].len() && comps[i][j] == u as usize;
                let j2 = choose|j: int| 0 <= j < comps[x].len() && comps[x][j] == self.succ(u, k) as usize;
                self.lemma_edge_succ(u, k);
                assert(0 <= self.succ(u, k) < self.n);
                assert(self.edge(comps[i][j1] as int, comps[x][j2] as int));
            }
        }
        let condensed_graph = DirectedGraph { n: m, adj: adj_condensed };
        (sccs, condensed_graph, peak_memory_bytes)
    }
}

impl DirectedGraph {
    /// A decomposition into strongly connected components has exactly one
    /// component when, and only when, the graph has a vertex and every vertex
    /// reaches every vertex.
    pub proof fn lemma_single_component(&self, comps: Seq<Seq<usize>>)
        requires
            self.is_scc_decomposition(comps),
        ensures
            comps.len() == 1 <==> (self.n > 0 && forall|s: int, t: int|
                0 <= s < self.n && 0 <= t < self.n ==> #[trigger] self.reaches(s, t)),
    {
        if comps.len() == 1 {
            assert(comps[0].len() > 0);
            assert(comps[0][0] < self.n);
            assert forall|s: int, t: int| 0 <= s < self.n && 0 <= t < self.n implies #[trigger] self.reaches(s, t) by {
                assert(lists_contain(comps, s));
                assert(lists_contain(comps, t));
                let (i1, j1) = choose|i: int, j: int| 0 <= i < comps.len() && 0 <= j < comps[i].len() && #[trigger] comps[i][j] == s;
                let (i2, j2) = choose|i: int, j: int| 0 <= i < comps.len() && 0 <= j < comps[i].len() && #[trigger] comps[i][j] == t;
                assert(i1 == 0 && i2 == 0);
                assert(self.reaches(comps[i1][j1] as int, comps[i2][j2] as int));
            }
        }
        if self.n > 0 && forall|s: int, t: int| 0 <= s < self.n && 0 <= t < self.n ==> #[trigger] self.reaches(s, t) {
            assert(lists_contain(comps, 0));
            assert(comps.len() >= 1);
            if comps.len() > 1 {
                assert(comps[0].len() > 0 && comps[1].len() > 0);
                let a = comps[0][0] as int;
                let b = comps[1][0] as int;
                assert(a < self.n && b < self.n);
                assert(self.reaches(a, b) && self.reaches(b, a));
                assert(self.reaches(comps[0][0] as int, comps[1][0] as int));
            }
        }
    }
}

} // verus!
