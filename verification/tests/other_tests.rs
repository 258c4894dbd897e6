use g2_isogeny::counting::{number_of_ssg_nodes, number_of_ssp_jacobian_nodes, number_of_ssp_nodes};
use g2_isogeny::curves::{Legendre, LegendreProduct};
use g2_isogeny::fq::{Fp, Fp2};
use g2_isogeny::graph::DirectedGraph;
use g2_isogeny::reachability::{analyze_edge_reachability, check_coarse_pair_reachability};
use g2_isogeny::report::{pair_to_string, push_decimal, push_list};
use g2_isogeny::utils::{
    get_physical_mem_bytes, get_physical_memory_kb, intersect_sorted_vectors_inplace, memory_or_zero, next_binary_unit, summarize_connectivity,
    AnalysisResult,
};

fn fp2<const P: u32, const D: u32>(c0: u32, c1: u32) -> Fp2<P, D> {
    Fp2::<P, D>::new(Fp::<P>::new(c0), Fp::<P>::new(c1))
}

#[test]
fn ssg_node_counts() {
    // p = 2 (mod 5)
    assert_eq!(number_of_ssg_nodes(7), 40);
    // p = 1 (mod 5): p^2 (p^2 - 1)^2 / 2880
    assert_eq!(number_of_ssg_nodes(11), 605);
}

#[test]
fn ssp_node_counts() {
    assert_eq!(number_of_ssp_nodes(7), 2);
    assert_eq!(number_of_ssp_nodes(11), 5);
    assert_eq!(number_of_ssp_jacobian_nodes(7), 1);
    assert_eq!(number_of_ssp_jacobian_nodes(11), 2);
}

#[test]
fn intersect_keeps_common_elements() {
    let mut v1 = vec![1, 3, 5, 7];
    intersect_sorted_vectors_inplace(&mut v1, &[3, 4, 5, 8]);
    assert_eq!(v1, vec![3, 5]);
    let mut v2 = vec![1, 2];
    intersect_sorted_vectors_inplace(&mut v2, &[]);
    assert!(v2.is_empty());
    let mut v3 = vec![2, 4, 6];
    intersect_sorted_vectors_inplace(&mut v3, &[2, 4, 6]);
    assert_eq!(v3, vec![2, 4, 6]);
}

#[test]
fn process_memory_is_reported() {
    let bytes = get_physical_mem_bytes();
    assert!(bytes > 0);
    assert!(get_physical_memory_kb() > 0);
}

#[test]
fn legendre_j_invariant() {
    // j(2) = 256 * 27 / 4 = 1728 = 11 (mod 17)
    let e = Legendre::<17, 3>::new(fp2(2, 0));
    assert_eq!(e.j_invariant(), fp2(11, 0));
    // j(3) = 256 * 343 / 36 = 10 (mod 17); the pair lists the smaller first
    let e3 = Legendre::<17, 3>::new(fp2(3, 0));
    assert_eq!(e3.j_invariant(), fp2(10, 0));
    let pair = LegendreProduct::<17, 3>::new(e, e3);
    assert_eq!(pair.j_invariants(), (fp2(10, 0), fp2(11, 0)));
}

#[test]
fn legendre_supersingularity() {
    // y^2 = x^3 - x is supersingular exactly for p = 3 (mod 4)
    assert!(Legendre::<19, 2>::new(fp2(18, 0)).is_supersingular());
    assert!(!Legendre::<17, 3>::new(fp2(16, 0)).is_supersingular());
    let e = Legendre::<19, 2>::generate_ssg_legendre();
    assert_eq!(e.la, fp2(18, 0));
    let f = Legendre::<17, 3>::generate_ssg_legendre();
    assert!(f.is_supersingular());
    assert!(!f.la.is_zero());
    assert_ne!(f.la, fp2(1, 0));
}

#[test]
fn coarse_pairs_missing_a_target() {
    let pairs = vec![(0, 1), (1, 0), (1, 1)];
    let graph = DirectedGraph::from_adj(vec![vec![1], vec![0], vec![]]);
    let (ok, missing, coarse, _) = check_coarse_pair_reachability(&pairs, &graph);
    assert!(!ok);
    assert_eq!(missing, Some(((0, 1), (1, 1))));
    assert_eq!(coarse, vec![(0, 1), (1, 0), (1, 1)]);
}

#[test]
fn coarse_pairs_all_connected() {
    let pairs = vec![(1, 0), (0, 1), (1, 0)];
    let graph = DirectedGraph::from_adj(vec![vec![1], vec![2], vec![0]]);
    let (ok, missing, coarse, _) = check_coarse_pair_reachability(&pairs, &graph);
    assert!(ok);
    assert_eq!(missing, None);
    assert_eq!(coarse, vec![(0, 1), (1, 0)]);
}

#[test]
fn edge_reachability_report() {
    let pairs = vec![(0, 1), (1, 0), (1, 1)];
    let graph = DirectedGraph::from_adj(vec![vec![1], vec![0], vec![]]);
    let (analysis, _) = analyze_edge_reachability(2, &pairs, &graph);
    assert_eq!(analysis.variety_count, 2);
    assert_eq!(analysis.coarse_pair_count, 3);
    assert_eq!(analysis.marked_edge_state_count, 3);
    assert_eq!(analysis.marked_transition_count, 2);
    assert_eq!(analysis.marked_scc_count, 2);
    assert!(!analysis.all_marked_edges_mutually_reachable);
    assert!(!analysis.all_coarse_pairs_connected_via_good_paths);
    assert_eq!(analysis.first_unreachable_source_pair, Some((0, 1)));
    assert_eq!(analysis.first_unreachable_target_pair, Some((1, 1)));
}

fn analysis(strongly_connected: bool) -> AnalysisResult {
    AnalysisResult {
        jacobian_count: 12,
        vertex_count: 345,
        edge_count: 6789,
        is_strongly_connected: strongly_connected,
        scc_count: if strongly_connected { 1 } else { 3 },
        are_all_jacobians_connected_via_main_scc: true,
        are_all_jacobian_pairs_connected_via_good_paths: false,
        are_all_minor_sccs_size_1: true,
        are_all_minor_nodes_self_isogenies: false,
        all_minor_sccs_have_preds_from_main: true,
        any_minor_sccs_have_succs_to_main: false,
        exists_minor_to_minor_edge: true,
        condensed_graph: DirectedGraph { n: 3, adj: vec![vec![1, 2], vec![], vec![10]] },
    }
}

fn push_line(f: &mut String, line: String) {
    f.push_str(&line);
    f.push('\n');
}

fn report_by_format(r: &AnalysisResult) -> String {
    let check = |b: bool| if b { "✅ Yes" } else { "❌ No " };
    let mut f = String::new();
    push_line(&mut f, format!("\n--- Graph Connectivity Analysis Report ---"));
    push_line(&mut f, format!("[Basic Statistics]"));
    push_line(&mut f, format!("Number of Jacobians:        {}", r.jacobian_count));
    push_line(&mut f, format!("Number of Vertices:         {}", r.vertex_count));
    push_line(&mut f, format!("Number of Edges:            {}", r.edge_count));
    push_line(&mut f, format!("Strongly Connected:          {}", check(r.is_strongly_connected)));
    push_line(&mut f, format!("Number of SCCs:              {}", r.scc_count));
    push_line(&mut f, format!("\n[Main SCC Properties]"));
    push_line(&mut f, format!("All Jacobians in Main SCC:   {}", check(r.are_all_jacobians_connected_via_main_scc)));
    push_line(&mut f, format!("\n[Jacobian Pair Connectivity]"));
    push_line(&mut f, format!("All Jacobian Pairs Connected via Good Paths:    {}",
        check(r.are_all_jacobian_pairs_connected_via_good_paths)
    ));
    if !r.is_strongly_connected {
        push_line(&mut f, format!("\n[Minor SCC Properties]"));
        push_line(&mut f, format!("All Minor SCCs Size 1:       {}", check(r.are_all_minor_sccs_size_1)));
        push_line(&mut f, format!("All Minor Nodes Self-Isog:   {}", check(r.are_all_minor_nodes_self_isogenies)));
        push_line(&mut f, format!("\n[Minor SCC Detailed Connectivity]"));
        push_line(&mut f, format!("All Minor SCCs Have Predecessors from Main SCC:  {}",
            check(r.all_minor_sccs_have_preds_from_main)
        ));
        push_line(&mut f, format!("Any Minor SCCs Have Successors to Main SCC:      {}",
            check(r.any_minor_sccs_have_succs_to_main)
        ));
        push_line(&mut f, format!("Exists Minor-to-Minor SCC Edge:                  {}", check(r.exists_minor_to_minor_edge)));
        push_line(&mut f, format!("\n[Condensed Graph]"));
        push_line(&mut f, format!("Number of Vertices:         {}", r.condensed_graph.n));
        push_line(&mut f, format!("adjacency list:"));
        let adj_str = r
            .condensed_graph
            .adj
            .iter()
            .enumerate()
            .map(|(i, adj)| format!("{}:{:?}", i, adj))
            .collect::<Vec<_>>()
            .join(", ");
        push_line(&mut f, format!("Adjacency: {}", adj_str));
    }
    push_line(&mut f, format!("------------------------------------------"));
    f
}

#[test]
fn report_of_a_strongly_connected_graph() {
    let r = analysis(true);
    let text = r.to_string();
    assert_eq!(text, report_by_format(&r));
    assert!(text.contains("Number of Edges:            6789\n"));
    assert!(!text.contains("[Minor SCC Properties]"));
}

#[test]
fn report_of_a_graph_with_minor_components() {
    let r = analysis(false);
    let text = r.to_string();
    assert_eq!(text, report_by_format(&r));
    assert!(text.contains("Adjacency: 0:[1, 2], 1:[], 2:[10]\n"));
    assert!(text.ends_with("------------------------------------------\n"));
}

#[test]
fn decimal_text_of_numbers() {
    for n in [0usize, 7, 10, 99, 1234, 1000000, usize::MAX] {
        let mut s = String::from("x=");
        push_decimal(&mut s, n);
        assert_eq!(s, format!("x={}", n));
    }
    let mut s = String::new();
    push_list(&mut s, &vec![]);
    assert_eq!(s, "[]");
    let mut s = String::new();
    push_list(&mut s, &vec![5, 0, 42]);
    assert_eq!(s, "[5, 0, 42]");
}

#[test]
fn coarse_pair_text() {
    assert_eq!(pair_to_string(Some((3, 14))), "(3,14)");
    assert_eq!(pair_to_string(Some((0, 0))), "(0,0)");
    assert_eq!(pair_to_string(None), "");
}

fn graph(adj: Vec<Vec<usize>>) -> DirectedGraph {
    DirectedGraph { n: adj.len(), adj }
}

#[test]
fn summary_of_a_graph_with_minor_components() {
    let nodes = vec![(0, 0), (0, 1), (1, 0), (1, 1)];
    let ge = graph(vec![vec![1], vec![2], vec![1, 3], vec![3]]);
    let sccs = vec![vec![1, 2], vec![0], vec![3]];
    let condensed = graph(vec![vec![1], vec![], vec![0]]);
    let r = summarize_connectivity(2, &nodes, &ge, &sccs, condensed, true);
    assert_eq!(r.jacobian_count, 2);
    assert_eq!(r.vertex_count, 4);
    assert_eq!(r.edge_count, 5);
    assert!(!r.is_strongly_connected);
    assert_eq!(r.scc_count, 3);
    assert!(r.are_all_jacobians_connected_via_main_scc);
    assert!(r.are_all_jacobian_pairs_connected_via_good_paths);
    assert!(r.are_all_minor_sccs_size_1);
    assert!(r.are_all_minor_nodes_self_isogenies);
    assert!(!r.all_minor_sccs_have_preds_from_main);
    assert!(r.any_minor_sccs_have_succs_to_main);
    assert!(!r.exists_minor_to_minor_edge);
    assert_eq!(r.condensed_graph.adj, vec![vec![1], vec![], vec![0]]);
}

#[test]
fn summary_flags_large_minor_components_and_minor_edges() {
    let nodes = vec![(0, 1), (1, 2), (2, 0), (2, 2)];
    let ge = graph(vec![vec![1], vec![2, 3], vec![3], vec![2]]);
    // the largest component is the last one, {2, 3}
    let sccs = vec![vec![0], vec![1], vec![2, 3]];
    let condensed = graph(vec![vec![1, 2], vec![2], vec![]]);
    let r = summarize_connectivity(3, &nodes, &ge, &sccs, condensed, false);
    assert_eq!(r.edge_count, 5);
    // the main component meets surfaces 2 and 0 only
    assert!(!r.are_all_jacobians_connected_via_main_scc);
    assert!(!r.are_all_jacobian_pairs_connected_via_good_paths);
    assert!(r.are_all_minor_sccs_size_1);
    assert!(!r.are_all_minor_nodes_self_isogenies);
    assert!(!r.all_minor_sccs_have_preds_from_main);
    assert!(r.any_minor_sccs_have_succs_to_main);
    assert!(r.exists_minor_to_minor_edge);
}

#[test]
fn main_component_is_the_largest_not_the_first() {
    // 0 -> 1, 1 -> 2, 2 -> 1: the source {0} comes first, {1, 2} is the largest
    let nodes = vec![(0, 0), (0, 1), (1, 0)];
    let ge = graph(vec![vec![1], vec![2], vec![1]]);
    let (sccs, condensed, _) = ge.scc_and_condense();
    assert_eq!(sccs.len(), 2);
    let main = if sccs[0].len() == 2 { 0 } else { 1 };
    assert_eq!(sccs[main].len(), 2);
    let r = summarize_connectivity(2, &nodes, &ge, &sccs, condensed, true);
    assert!(r.are_all_jacobians_connected_via_main_scc);
    assert!(r.are_all_minor_sccs_size_1);
    assert!(r.are_all_minor_nodes_self_isogenies);
    assert!(!r.all_minor_sccs_have_preds_from_main);
    assert!(r.any_minor_sccs_have_succs_to_main);
    assert!(!r.exists_minor_to_minor_edge);
}

#[test]
fn summary_of_a_strongly_connected_graph() {
    let nodes = vec![(0, 1), (1, 0)];
    let ge = graph(vec![vec![1], vec![0]]);
    let sccs = vec![vec![0, 1]];
    let condensed = graph(vec![vec![]]);
    let r = summarize_connectivity(2, &nodes, &ge, &sccs, condensed, true);
    assert!(r.is_strongly_connected);
    assert_eq!(r.scc_count, 1);
    assert!(r.are_all_jacobians_connected_via_main_scc);
    assert!(r.are_all_minor_sccs_size_1);
    assert!(r.are_all_minor_nodes_self_isogenies);
    assert!(r.all_minor_sccs_have_preds_from_main);
    assert!(!r.any_minor_sccs_have_succs_to_main);
    assert!(!r.exists_minor_to_minor_edge);
    assert!(r.to_string().contains("Strongly Connected:          ✅ Yes\n"));
}

#[test]
fn memory_readings_convert_to_larger_units() {
    assert_eq!(memory_or_zero(Some(5_000_000)), 5_000_000);
    assert_eq!(memory_or_zero(None), 0);
    assert_eq!(next_binary_unit(5_000_000), 4882);
    assert_eq!(next_binary_unit(next_binary_unit(5_000_000)), 4);
    assert_eq!(next_binary_unit(1023), 0);
    assert_eq!(next_binary_unit(u64::MAX), u64::MAX / 1024);
}

#[test]
fn j_invariants_do_not_depend_on_the_order_of_the_curves() {
    let e = Legendre::<17, 3>::new(fp2(2, 0));
    let e3 = Legendre::<17, 3>::new(fp2(3, 0));
    let e5 = Legendre::<17, 3>::new(fp2(5, 7));
    for (a, b) in [(e, e3), (e3, e5), (e, e5), (e5, e5)] {
        let (x, y) = LegendreProduct::<17, 3>::new(a, b).j_invariants();
        assert_eq!((x, y), LegendreProduct::<17, 3>::new(b, a).j_invariants());
        assert!((x, y) == (a.j_invariant(), b.j_invariant()) || (x, y) == (b.j_invariant(), a.j_invariant()));
    }
}
