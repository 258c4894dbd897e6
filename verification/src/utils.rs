//! Process memory figures, sorted-list intersection and the records that the
//! analyses report.
use crate::graph::{seqs_of, strictly_increasing, DirectedGraph};
use crate::reachability::{edge_total, lemma_edge_total_prefix};
use sysinfo::{Pid, Process, System};
use vstd::prelude::*;

verus! {

#[verifier::external_type_specification]
#[verifier::external_body]
pub struct ExSystem(System);

#[verifier::external_type_specification]
#[verifier::external_body]
pub struct ExPid(Pid);

#[verifier::external_type_specification]
#[verifier::external_body]
pub struct ExProcess(Process);

/// `sysinfo::get_current_pid`: the id of the running process, or `None`
/// where the platform gives none. Nothing is stated of the id.
#[verifier::external_body]
fn current_pid() -> (r: Option<Pid>) {
    sysinfo::get_current_pid().ok()
}

/// `sysinfo::System::new`: an empty table of system information.
#[verifier::external_body]
fn new_system() -> (r: System) {
    System::new()
}

/// `sysinfo::System::refresh_process`: reloads the entry of `pid` and tells
/// whether the process exists. What the system reports is not stated.
#[verifier::external_body]
fn refresh_process(sys: &mut System, pid: Pid) -> (r: bool) {
    sys.refresh_process(pid)
}

/// `sysinfo::System::process`: the loaded entry of `pid`, if any. Nothing is
/// stated of which entries are loaded.
#[verifier::external_body]
fn find_process(sys: &System, pid: Pid) -> (r: Option<&Process>) {
    sys.process(pid)
}

/// `sysinfo::Process::memory`: the resident memory of the process in bytes,
/// as the system reported it; nothing is stated of the figure.
#[verifier::external_body]
fn process_memory(process: &Process) -> (r: u64) {
    process.memory()
}

/// `sysinfo::Process::virtual_memory`: the virtual memory of the process in
/// bytes, as the system reported it; nothing is stated of the figure.
#[verifier::external_body]
fn process_virtual_memory(process: &Process) -> (r: u64) {
    process.virtual_memory()
}

/// A memory reading, or 0 where the system gave none.
pub fn memory_or_zero(reading: Option<u64>) -> (r: u64)
    ensures
        r == (match reading {
            Some(m) => m,
            None => 0,
        }),
{
    match reading {
        Some(m) => m,
        None => 0,
    }
}

/// A memory figure in the next larger binary unit (bytes to KiB, KiB to
/// MiB), rounded down.
pub fn next_binary_unit(x: u64) -> (r: u64)
    ensures
        r == x / 1024,
{
    x / 1024
}

/// The resident memory of this process in bytes, or 0 when the system does
/// not report it. The figure is what the system reports at the time of the
/// call; nothing more is stated of it.
pub fn get_physical_mem_bytes() -> (r: u64) {
    let mut sys = new_system();
    let reading = match current_pid() {
        Some(pid) => {
            refresh_process(&mut sys, pid);
            match find_process(&sys, pid) {
                Some(process) => Some(process_memory(process)),
                None => None,
            }
        },
        None => None,
    };
    memory_or_zero(reading)
}

/// The resident memory of this process in KiB (rounded down).
pub fn get_physical_memory_kb() -> (r: u64)
    ensures
        r <= u64::MAX / 1024,
{
    next_binary_unit(get_physical_mem_bytes())
}

/// The resident memory of this process in MiB (rounded down).
pub fn get_physical_memory_mb() -> (r: u64)
    ensures
        r <= u64::MAX / 1048576u64,
{
    next_binary_unit(next_binary_unit(get_physical_mem_bytes()))
}

/// The virtual memory of this process in bytes, or 0 when the system does
/// not report it. The figure is what the system reports at the time of the
/// call; nothing more is stated of it.
pub fn get_virtual_memory_bytes() -> (r: u64) {
    let mut sys = new_system();
    let reading = match current_pid() {
        Some(pid) => {
            refresh_process(&mut sys, pid);
            match find_process(&sys, pid) {
                Some(process) => Some(process_virtual_memory(process)),
                None => None,
            }
        },
        None => None,
    };
    memory_or_zero(reading)
}

/// The virtual memory of this process in KiB (rounded down).
pub fn get_virtual_memory_kb() -> (r: u64)
    ensures
        r <= u64::MAX / 1024,
{
    next_binary_unit(get_virtual_memory_bytes())
}

/// The virtual memory of this process in MiB (rounded down).
pub fn get_virtual_memory_mb() -> (r: u64)
    ensures
        r <= u64::MAX / 1048576u64,
{
    next_binary_unit(get_virtual_memory_kb())
}

/// Intersects two sorted vectors in-place.
///
/// The first vector `v1` is modified to contain only elements that are also
/// present in `v2`. Both vectors must be sorted and contain no duplicates for
/// this to work correctly in O(N+M).
pub fn intersect_sorted_vectors_inplace(v1: &mut Vec<usize>, v2: &[usize])
    requires
        strictly_increasing(old(v1)@),
        strictly_increasing(v2@),
    ensures
        strictly_increasing(final(v1)@),
        forall|x: usize| #[trigger] final(v1)@.contains(x) <==> (old(v1)@.contains(x) && v2@.contains(x)),
{
    let ghost s = v1@;
    let mut i: usize = 0;  // index for existing
    let mut j: usize = 0;  // index for other
    let mut write_idx: usize = 0;
    while i < v1.len() && j < v2.len()
        invariant
            strictly_increasing(s),
            strictly_increasing(v2@),
            v1@.len() == s.len(),
            write_idx <= i <= s.len(),
            j <= v2@.len(),
            forall|k: int| i <= k < s.len() ==> #[trigger] v1@[k] == s[k],
            strictly_increasing(v1@.take(write_idx as int)),
            forall|x: usize| #[trigger] v1@.take(write_idx as int).contains(x) <==> (s.take(i as int).contains(x) && v2@.contains(x)),
            i < s.len() ==> forall|k: int| 0 <= k < j ==> #[trigger] v2@[k] < s[i as int],
        decreases s.len() - i + v2@.len() - j,
    {
        let a = v1[i];
        let b = v2[j];
        if a == b {
            let ghost before = v1@;
            if write_idx != i {
                v1.set(write_idx, a);
            }
            proof {
                let w = write_idx as int;
                assert(v1@.take(w + 1) =~= before.take(w).push(a));
                assert forall|k: int| i + 1 <= k < s.len() implies #[trigger] v1@[k] == s[k] by {}
                assert(s.take(i as int + 1) =~= s.take(i as int).push(a));
                assert forall|x: usize| before.take(w).contains(x) implies x < a by {
                    let k = choose|k: int| 0 <= k < w && #[trigger] before.take(w)[k] == x;
                    assert(s.take(i as int).contains(x));
                    let k2 = choose|k2: int| 0 <= k2 < i && #[trigger] s.take(i as int)[k2] == x;
                    assert(s[k2] < s[i as int]);
                }
                assert forall|p: int, q: int| 0 <= p < q < w + 1 implies #[trigger] v1@.take(w + 1)[p] < #[trigger] v1@.take(w + 1)[q] by {
                    if q == w {
                        assert(before.take(w).contains(before.take(w)[p]));
                    } else {
                        assert(before.take(w)[p] < before.take(w)[q]);
                    }
                }
                assert forall|x: usize| #[trigger] v1@.take(w + 1).contains(x) <==> (s.take(i as int + 1).contains(x) && v2@.contains(x)) by {
                    if x == a {
                        assert(v1@.take(w + 1)[w] == a);
                        assert(s.take(i as int + 1)[i as int] == a);
                        assert(v2@[j as int] == a);
                    } else {
                        if v1@.take(w + 1).contains(x) {
                            let k = choose|k: int| 0 <= k < w + 1 && #[trigger] v1@.take(w + 1)[k] == x;
                            assert(before.take(w)[k] == x);
                            assert(before.take(w).contains(x));
                        }
                        if s.take(i as int + 1).contains(x) && v2@.contains(x) {
                            let k = choose|k: int| 0 <= k < i + 1 && #[trigger] s.take(i as int + 1)[k] == x;
                            assert(s.take(i as int)[k] == x);
                            assert(before.take(w).contains(x));
                            let k2 = choose|k2: int| 0 <= k2 < w && #[trigger] before.take(w)[k2] == x;
                            assert(v1@.take(w + 1)[k2] == x);
                        }
                    }
                }
                if i + 1 < s.len() {
                    assert forall|k: int| 0 <= k < j + 1 implies #[trigger] v2@[k] < s[i + 1] by {
                        assert(s[i as int] < s[i + 1]);
                        if k < j {
                            assert(v2@[k] < s[i as int]);
                        }
                    }
                }
            }
            write_idx = write_idx + 1;
            i = i + 1;
            j = j + 1;
        } else if a < b {
            proof {
                let w = write_idx as int;
                assert(s.take(i as int + 1) =~= s.take(i as int).push(a));
                assert(!v2@.contains(a)) by {
                    if v2@.contains(a) {
                        let k = choose|k: int| 0 <= k < v2@.len() && #[trigger] v2@[k] == a;
                        if k < j {
                            assert(v2@[k] < s[i as int]);
                        } else if k > j {
                            assert(v2@[j as int] < v2@[k]);
                        }
                    }
                }
                assert forall|x: usize| #[trigger] v1@.take(w).contains(x) <==> (s.take(i as int + 1).contains(x) && v2@.contains(x)) by {
                    if s.take(i as int + 1).contains(x) && x != a {
                        let k = choose|k: int| 0 <= k < i + 1 && #[trigger] s.take(i as int + 1)[k] == x;
                        assert(s.take(i as int)[k] == x);
                    }
                    if s.take(i as int).contains(x) {
                        let k = choose|k: int| 0 <= k < i && #[trigger] s.take(i as int)[k] == x;
                        assert(s.take(i as int + 1)[k] == x);
                    }
                }
                if i + 1 < s.len() {
                    assert(s[i as int] < s[i + 1]);
                }
            }
            i = i + 1;
        } else {
            j = j + 1;
        }
    }
    proof {
        let w = write_idx as int;
        if i < s.len() {
            assert forall|x: usize| #[trigger] v1@.take(w).contains(x) <==> (s.contains(x) && v2@.contains(x)) by {
                if s.contains(x) && v2@.contains(x) {
                    let k = choose|k: int| 0 <= k < s.len() && #[trigger] s[k] == x;
                    let k2 = choose|k2: int| 0 <= k2 < v2@.len() && #[trigger] v2@[k2] == x;
                    if k >= i {
                        assert(v2@[k2] < s[i as int]);
                        if k > i {
                            assert(s[i as int] < s[k]);
                        }
                    } else {
                        assert(s.take(i as int)[k] == x);
                    }
                }
                if s.take(i as int).contains(x) {
                    let k = choose|k: int| 0 <= k < i && #[trigger] s.take(i as int)[k] == x;
                    assert(s[k] == x);
                }
            }
        } else {
            assert(s.take(i as int) =~= s);
        }
    }
    v1.truncate(write_idx);
    proof {
        assert(v1@ =~= v1@.take(write_idx as int));
    }
}

/// The findings of the connectivity analysis of an isogeny graph.
pub struct AnalysisResult {
    pub jacobian_count: usize,
    pub vertex_count: usize,
    pub edge_count: usize,
    pub is_strongly_connected: bool,
    pub scc_count: usize,
    pub are_all_jacobians_connected_via_main_scc: bool,
    pub are_all_jacobian_pairs_connected_via_good_paths: bool,
    pub are_all_minor_sccs_size_1: bool,
    pub are_all_minor_nodes_self_isogenies: bool,
    pub all_minor_sccs_have_preds_from_main: bool,
    pub any_minor_sccs_have_succs_to_main: bool,
    pub exists_minor_to_minor_edge: bool,
    pub condensed_graph: DirectedGraph,
}

/// The node at index `c` joins the surface `j` to another, or another to `j`.
pub open spec fn node_touches(nodes: Seq<(usize, usize)>, c: usize, j: usize) -> bool {
    nodes[c as int].0 == j || nodes[c as int].1 == j
}

/// The surfaces met by the nodes of a component: both ends of each node.
pub open spec fn surfaces_of(nodes: Seq<(usize, usize)>, comp: Seq<usize>) -> Set<usize> {
    Set::new(|j: usize| exists|k: int| 0 <= k < comp.len() && #[trigger] node_touches(nodes, comp[k], j))
}

/// The index of the first largest list among the first `n` of `s`.
pub open spec fn first_largest(s: Seq<Seq<usize>>, n: nat) -> int
    decreases n,
{
    if n <= 1 {
        0
    } else {
        let m = first_largest(s, (n - 1) as nat);
        if s[n - 1].len() > s[m].len() {
            n - 1
        } else {
            m
        }
    }
}

/// The first largest list is a largest one, and every list before it is
/// shorter.
pub proof fn lemma_first_largest(s: Seq<Seq<usize>>, n: nat)
    requires
        1 <= n <= s.len(),
    ensures
        0 <= first_largest(s, n) < n,
        forall|i: int| 0 <= i < n ==> #[trigger] s[i].len() <= s[first_largest(s, n)].len(),
        forall|i: int| 0 <= i < first_largest(s, n) ==> #[trigger] s[i].len() < s[first_largest(s, n)].len(),
    decreases n,
{
    if n > 1 {
        lemma_first_largest(s, (n - 1) as nat);
    }
}

/// The index of the first largest component: the main component.
pub fn largest_component(sccs: &Vec<Vec<usize>>) -> (m: usize)
    requires
        sccs.len() >= 1,
    ensures
        m == first_largest(seqs_of(sccs@), sccs.len() as nat),
        m < sccs.len(),
        forall|i: int| 0 <= i < sccs.len() ==> #[trigger] sccs@[i].len() <= sccs@[m as int].len(),
        forall|i: int| 0 <= i < m ==> #[trigger] sccs@[i].len() < sccs@[m as int].len(),
{
    let ghost s = seqs_of(sccs@);
    let mut m: usize = 0;
    let mut i: usize = 1;
    while i < sccs.len()
        invariant
            1 <= i <= sccs.len(),
            s == seqs_of(sccs@),
            m == first_largest(s, i as nat),
        decreases sccs.len() - i,
    {
        proof {
            lemma_first_largest(s, i as nat);
            assert(s[i as int].len() == sccs@[i as int].len());
            assert(s[m as int].len() == sccs@[m as int].len());
        }
        if sccs[i].len() > sccs[m].len() {
            m = i;
        }
        i = i + 1;
    }
    proof {
        lemma_first_largest(s, sccs.len() as nat);
        assert forall|i: int| 0 <= i < sccs.len() implies #[trigger] sccs@[i].len() <= sccs@[m as int].len() by {
            assert(s[i].len() == sccs@[i].len());
        }
        assert forall|i: int| 0 <= i < m implies #[trigger] sccs@[i].len() < sccs@[m as int].len() by {
            assert(s[i].len() == sccs@[i].len());
        }
    }
    m
}

/// What the connectivity analysis of a good-extension graph reports, from
/// the number of surfaces, the nodes, the graph, its strongly connected
/// components, their condensed graph and whether good paths join every pair
/// of surfaces. The main component is the first largest one.
pub open spec fn connectivity_summary(
    r: AnalysisResult,
    jacobian_count: usize,
    node_list: Seq<(usize, usize)>,
    ge_graph: DirectedGraph,
    sccs: Seq<Seq<usize>>,
    condensed_graph: DirectedGraph,
    good_paths: bool,
) -> bool {
    let m = first_largest(sccs, sccs.len() as nat);
    &&& r.jacobian_count == jacobian_count
    &&& r.vertex_count == node_list.len()
    &&& r.edge_count == edge_total(seqs_of(ge_graph.adj@))
    &&& r.is_strongly_connected == (sccs.len() == 1)
    &&& r.scc_count == sccs.len()
    &&& r.are_all_jacobians_connected_via_main_scc == (surfaces_of(node_list, sccs[m]).len() == jacobian_count)
    &&& r.are_all_jacobian_pairs_connected_via_good_paths == good_paths
    &&& r.are_all_minor_sccs_size_1 == (forall|i: int| 0 <= i < sccs.len() && i != m ==> #[trigger] sccs[i].len() == 1)
    &&& r.are_all_minor_nodes_self_isogenies == (forall|i: int, k: int|
        0 <= i < sccs.len() && i != m && 0 <= k < sccs[i].len() ==> #[trigger] node_list[sccs[i][k] as int].0
            == node_list[sccs[i][k] as int].1)
    &&& r.all_minor_sccs_have_preds_from_main == (forall|i: int|
        0 <= i < sccs.len() && i != m ==> #[trigger] condensed_graph.adj@[m]@.contains(i as usize))
    &&& r.any_minor_sccs_have_succs_to_main == (exists|i: int|
        0 <= i < sccs.len() && i != m && #[trigger] condensed_graph.adj@[i]@.contains(m as usize))
    &&& r.exists_minor_to_minor_edge == (exists|i: int, k: int|
        0 <= i < sccs.len() && i != m && 0 <= k < condensed_graph.adj@[i].len()
            && #[trigger] condensed_graph.adj@[i]@[k] != m as usize)
    &&& r.condensed_graph == condensed_graph
}

/// The findings of the connectivity analysis of a good-extension graph, from
/// its nodes (pairs of surfaces), its strongly connected components and their
/// condensed graph (one row per component). The main component is the first
/// largest one; the others are the minor components. Whether every pair of
/// surfaces is joined by good paths is decided by a search on the curves and
/// handed in.
pub fn summarize_connectivity(
    jacobian_count: usize,
    node_list: &Vec<(usize, usize)>,
    ge_graph: &DirectedGraph,
    sccs: &Vec<Vec<usize>>,
    condensed_graph: DirectedGraph,
    good_paths: bool,
) -> (r: AnalysisResult)
    requires
        sccs.len() >= 1,
        condensed_graph.adj.len() == sccs.len(),
        forall|i: int, k: int|
            0 <= i < sccs.len() && 0 <= k < sccs@[i].len() ==> #[trigger] sccs@[i]@[k] < node_list.len(),
        edge_total(seqs_of(ge_graph.adj@)) <= usize::MAX,
    ensures
        connectivity_summary(r, jacobian_count, node_list@, *ge_graph, seqs_of(sccs@), condensed_graph, good_paths),
{
    let scc_count = sccs.len();
    let is_strongly_connected = scc_count == 1;
    let m = largest_component(sccs);
    // the surfaces met by the main component
    let main_scc = &sccs[m];
    let mut surfaces: std::collections::HashSet<usize> = std::collections::HashSet::new();
    let mut k: usize = 0;
    while k < main_scc.len()
        invariant
            k <= main_scc.len(),
            m < sccs.len(),
            main_scc@ == sccs@[m as int]@,
            forall|i: int, k: int|
                0 <= i < sccs.len() && 0 <= k < sccs@[i].len() ==> #[trigger] sccs@[i]@[k] < node_list.len(),
            surfaces@ == surfaces_of(node_list@, main_scc@.take(k as int)),
        decreases main_scc.len() - k,
    {
        broadcast use vstd::std_specs::hash::group_hash_axioms;
        assert(main_scc@[k as int] == sccs@[m as int]@[k as int]);
        let (j0, j1) = node_list[main_scc[k]];
        let ghost before = surfaces@;
        surfaces.insert(j0);
        surfaces.insert(j1);
        proof {
            let c = main_scc@.take(k as int + 1);
            assert forall|j: usize| #[trigger] surfaces@.contains(j) == surfaces_of(node_list@, c).contains(j) by {
                if surfaces_of(node_list@, c).contains(j) {
                    let w = choose|w: int| 0 <= w < c.len() && #[trigger] node_touches(node_list@, c[w], j);
                    if w < k {
                        assert(main_scc@.take(k as int)[w] == c[w]);
                        assert(surfaces_of(node_list@, main_scc@.take(k as int)).contains(j));
                    }
                }
                if before.contains(j) {
                    let w = choose|w: int| 0 <= w < k && #[trigger] node_touches(node_list@, main_scc@.take(k as int)[w], j);
                    assert(c[w] == main_scc@.take(k as int)[w]);
                }
                if j == j0 || j == j1 {
                    assert(node_touches(node_list@, c[k as int], j));
                }
            }
            assert(surfaces@ =~= surfaces_of(node_list@, c));
        }
        k = k + 1;
    }
    proof {
        assert(main_scc@.take(main_scc.len() as int) =~= main_scc@);
    }
    let covered = {
        broadcast use vstd::std_specs::hash::group_hash_axioms;
        surfaces.len() == jacobian_count
    };
    // the minor components
    let mut all_size_1 = true;
    let mut all_self = true;
    let mut i: usize = 0;
    while i < sccs.len()
        invariant
            i <= sccs.len(),
            m < sccs.len(),
            forall|i: int, k: int|
                0 <= i < sccs.len() && 0 <= k < sccs@[i].len() ==> #[trigger] sccs@[i]@[k] < node_list.len(),
            all_size_1 == (forall|t: int| 0 <= t < i && t != m ==> #[trigger] sccs@[t].len() == 1),
            all_self == (forall|t: int, u: int|
                0 <= t < i && t != m && 0 <= u < sccs@[t].len() ==> #[trigger] node_list@[sccs@[t]@[u] as int].0
                    == node_list@[sccs@[t]@[u] as int].1),
        decreases sccs.len() - i,
    {
        if i != m {
            let comp = &sccs[i];
            if comp.len() != 1 {
                all_size_1 = false;
            }
            let mut u: usize = 0;
            let ghost was_self = all_self;
            while u < comp.len()
                invariant
                    u <= comp.len(),
                    comp@ == sccs@[i as int]@,
                    i < sccs.len(),
                    forall|i: int, k: int|
                        0 <= i < sccs.len() && 0 <= k < sccs@[i].len() ==> #[trigger] sccs@[i]@[k] < node_list.len(),
                    all_self == (was_self && forall|v: int| 0 <= v < u ==> #[trigger] node_list@[comp@[v] as int].0
                        == node_list@[comp@[v] as int].1),
                decreases comp.len() - u,
            {
                assert(comp@[u as int] == sccs@[i as int]@[u as int]);
                let (a, b) = node_list[comp[u]];
                if a != b {
                    all_self = false;
                }
                u = u + 1;
            }
            proof {
                if all_self {
                    assert forall|t: int, v: int|
                        0 <= t < i + 1 && t != m && 0 <= v < sccs@[t].len() implies #[trigger] node_list@[sccs@[t]@[v] as int].0
                        == node_list@[sccs@[t]@[v] as int].1 by {
                        if t == i {
                            assert(sccs@[t]@[v] == comp@[v]);
                        }
                    }
                } else if was_self {
                    let v = choose|v: int| 0 <= v < comp.len() && !(#[trigger] node_list@[comp@[v] as int].0
                        == node_list@[comp@[v] as int].1);
                    assert(comp@[v] == sccs@[i as int]@[v]);
                    assert(!(node_list@[sccs@[i as int]@[v] as int].0 == node_list@[sccs@[i as int]@[v] as int].1));
                }
            }
        }
        i = i + 1;
    }
    // the condensed graph's edges between the main and the minor components
    let n = condensed_graph.adj.len();
    let mut preds = true;
    let mut succs = false;
    let mut minor_edge = false;
    let mut i: usize = 0;
    while i < n
        invariant
            i <= n,
            m < n,
            n == condensed_graph.adj.len(),
            preds == (forall|t: int| 0 <= t < i && t != m ==> #[trigger] condensed_graph.adj@[m as int]@.contains(t as usize)),
            succs == (exists|t: int| 0 <= t < i && t != m && #[trigger] condensed_graph.adj@[t]@.contains(m)),
            minor_edge == (exists|t: int, v: int|
                0 <= t < i && t != m && 0 <= v < condensed_graph.adj@[t].len() && #[trigger] condensed_graph.adj@[t]@[v] != m),
        decreases n - i,
    {
        if i != m {
            let ghost was_preds = preds;
            if !contains_value(&condensed_graph.adj[m], i) {
                preds = false;
            }
            proof {
                if preds {
                    assert forall|t: int| 0 <= t < i + 1 && t != m implies #[trigger] condensed_graph.adj@[m as int]@.contains(t as usize) by {
                        if t < i {
                            assert(was_preds);
                        }
                    }
                } else if was_preds {
                    assert(!condensed_graph.adj@[m as int]@.contains(i as usize));
                }
            }
            let row = &condensed_graph.adj[i];
            let ghost was_succs = succs;
            if contains_value(row, m) {
                succs = true;
            }
            proof {
                if was_succs {
                    let t = choose|t: int| 0 <= t < i && t != m && #[trigger] condensed_graph.adj@[t]@.contains(m);
                    assert(0 <= t < i + 1);
                }
                if succs && !was_succs {
                    assert(condensed_graph.adj@[i as int]@.contains(m));
                }
            }
            let mut v: usize = 0;
            let ghost was_edge = minor_edge;
            while v < row.len()
                invariant
                    v <= row.len(),
                    row@ == condensed_graph.adj@[i as int]@,
                    minor_edge == (was_edge || exists|w: int| 0 <= w < v && #[trigger] row@[w] != m),
                decreases row.len() - v,
            {
                if row[v] != m {
                    minor_edge = true;
                }
                v = v + 1;
            }
            proof {
                if minor_edge && !was_edge {
                    let w = choose|w: int| 0 <= w < row.len() && #[trigger] row@[w] != m;
                    assert(condensed_graph.adj@[i as int]@[w] != m);
                }
                if was_edge {
                    let (t, w) = choose|t: int, w: int|
                        0 <= t < i && t != m && 0 <= w < condensed_graph.adj@[t].len() && #[trigger] condensed_graph.adj@[t]@[w] != m;
                    assert(0 <= t < i + 1);
                }
                assert forall|t: int, w: int|
                    0 <= t < i + 1 && t != m && 0 <= w < condensed_graph.adj@[t].len() && #[trigger] condensed_graph.adj@[t]@[w]
                        != m implies minor_edge by {
                    if t == i {
                        assert(row@[w] != m);
                    }
                }
            }
        } else {
            proof {
                if preds {
                    assert forall|t: int| 0 <= t < i + 1 && t != m implies #[trigger] condensed_graph.adj@[m as int]@.contains(t as usize) by {
                        assert(t < i);
                    }
                } else {
                    let t = choose|t: int| !(0 <= t < i && t != m ==> #[trigger] condensed_graph.adj@[m as int]@.contains(t as usize));
                    assert(0 <= t < i + 1);
                }
                if succs {
                    let t = choose|t: int| 0 <= t < i && t != m && #[trigger] condensed_graph.adj@[t]@.contains(m);
                    assert(0 <= t < i + 1);
                }
                if minor_edge {
                    let (t, w) = choose|t: int, w: int|
                        0 <= t < i && t != m && 0 <= w < condensed_graph.adj@[t].len() && #[trigger] condensed_graph.adj@[t]@[w] != m;
                    assert(0 <= t < i + 1);
                }
            }
        }
        i = i + 1;
    }
    // the number of edges
    let mut edges: usize = 0;
    let mut t: usize = 0;
    while t < ge_graph.adj.len()
        invariant
            t <= ge_graph.adj.len(),
            edges == edge_total(seqs_of(ge_graph.adj@).take(t as int)),
            edge_total(seqs_of(ge_graph.adj@)) <= usize::MAX,
        decreases ge_graph.adj.len() - t,
    {
        proof {
            let all = seqs_of(ge_graph.adj@);
            assert(all.take(t as int + 1).drop_last() =~= all.take(t as int));
            lemma_edge_total_prefix(all, t as int + 1);
        }
        edges = edges + ge_graph.adj[t].len();
        t = t + 1;
    }
    proof {
        assert(seqs_of(ge_graph.adj@).take(ge_graph.adj.len() as int) =~= seqs_of(ge_graph.adj@));
    }
    proof {
        let mi = first_largest(seqs_of(sccs@), sccs.len() as nat);
        lemma_first_largest(seqs_of(sccs@), sccs.len() as nat);
        assert(mi as usize == m);
        if succs {
            let t = choose|t: int| 0 <= t < n && t != m && #[trigger] condensed_graph.adj@[t]@.contains(m);
            assert(condensed_graph.adj@[t]@.contains(mi as usize));
        }
        if minor_edge {
            let (t, w) = choose|t: int, w: int|
                0 <= t < n && t != m && 0 <= w < condensed_graph.adj@[t].len() && #[trigger] condensed_graph.adj@[t]@[w] != m;
            assert(condensed_graph.adj@[t]@[w] != mi as usize);
        }
        let s = seqs_of(sccs@);
        assert(s[mi] == sccs@[mi]@);
        assert(s.len() == sccs.len());
        if all_size_1 {
            assert forall|i: int| 0 <= i < sccs.len() && i != mi implies #[trigger] s[i].len() == 1 by {
                assert(s[i] == sccs@[i]@);
                assert(sccs@[i].len() == 1);
            }
        } else {
            let t = choose|t: int| 0 <= t < sccs.len() && t != m && #[trigger] sccs@[t].len() != 1;
            assert(s[t] == sccs@[t]@);
        }
        if all_self {
            assert forall|i: int, k: int| 0 <= i < sccs.len() && i != mi && 0 <= k < s[i].len() implies #[trigger] node_list@[s[i][k] as int].0
                == node_list@[s[i][k] as int].1 by {
                assert(s[i] == sccs@[i]@);
                assert(node_list@[sccs@[i]@[k] as int].0 == node_list@[sccs@[i]@[k] as int].1);
            }
        } else {
            let (t, u) = choose|t: int, u: int|
                0 <= t < sccs.len() && t != m && 0 <= u < sccs@[t].len() && #[trigger] node_list@[sccs@[t]@[u] as int].0
                    != node_list@[sccs@[t]@[u] as int].1;
            assert(s[t] == sccs@[t]@);
            assert(node_list@[s[t][u] as int].0 != node_list@[s[t][u] as int].1);
        }
    }
    AnalysisResult {
        jacobian_count,
        vertex_count: node_list.len(),
        edge_count: edges,
        is_strongly_connected,
        scc_count,
        are_all_jacobians_connected_via_main_scc: covered,
        are_all_jacobian_pairs_connected_via_good_paths: good_paths,
        are_all_minor_sccs_size_1: all_size_1,
        are_all_minor_nodes_self_isogenies: all_self,
        all_minor_sccs_have_preds_from_main: preds,
        any_minor_sccs_have_succs_to_main: succs,
        exists_minor_to_minor_edge: minor_edge,
        condensed_graph,
    }
}

/// Whether `v` occurs in the list.
pub(crate) fn contains_value(list: &Vec<usize>, v: usize) -> (r: bool)
    ensures
        r == list@.contains(v),
{
    let mut k: usize = 0;
    while k < list.len()
        invariant
            k <= list.len(),
            forall|w: int| 0 <= w < k ==> list@[w] != v,
        decreases list.len() - k,
    {
        if list[k] == v {
            return true;
        }
        k = k + 1;
    }
    false
}

/// One row of the report on superspecial graphs.
pub struct RowDataSsp {
    pub p: u32,
    pub d: u32,
    pub construction_time_sec: String,
    pub jacobian_count: usize,
    pub vertex_count: usize,
    pub edge_count: usize,
    pub connectivity_check_time_sec: String,
    pub is_strongly_connected: bool,
    pub scc_count: usize,
    pub are_all_jacobians_connected_via_main_scc: bool,
    pub are_all_jacobian_pairs_connected_via_good_paths: bool,
    pub are_all_minor_sccs_size_1: bool,
    pub are_all_minor_nodes_self_isogenies: bool,
    pub all_minor_sccs_have_preds_from_main: bool,
    pub any_minor_sccs_have_succs_to_main: bool,
    pub exists_minor_to_minor_edge: bool,
    pub condensed_graph: String,
    pub construction_peak_bytes: usize,
    pub connectivity_check_peak_bytes: usize,
}

/// One row of the report on supersingular, non-superspecial genus-2 graphs over `Fp4`.
pub struct RowDataSsg {
    pub p: u32,
    pub d1: u32,
    pub d2c0: u32,
    pub d2c1: u32,
    pub construction_time_sec: String,
    pub jacobian_count: usize,
    pub vertex_count: usize,
    pub edge_count: usize,
    pub connectivity_check_time_sec: String,
    pub is_strongly_connected: bool,
    pub scc_count: usize,
    pub are_all_jacobians_connected_via_main_scc: bool,
    pub are_all_jacobian_pairs_connected_via_good_paths: bool,
    pub are_all_minor_sccs_size_1: bool,
    pub are_all_minor_nodes_self_isogenies: bool,
    pub all_minor_sccs_have_preds_from_main: bool,
    pub any_minor_sccs_have_succs_to_main: bool,
    pub exists_minor_to_minor_edge: bool,
    pub condensed_graph: String,
    pub construction_peak_bytes: usize,
    pub connectivity_check_peak_bytes: usize,
}

} // verus!
