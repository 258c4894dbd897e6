use g2_isogeny::good_extension::{build_good_extension_graph, sorted_distinct};
use g2_isogeny::utils::summarize_connectivity;

#[test]
fn successors_are_sorted_without_repeats() {
    assert_eq!(sorted_distinct(&vec![5, 3, 5, 1, 3]), vec![1, 3, 5]);
    assert_eq!(sorted_distinct(&vec![]), Vec::<usize>::new());
    assert_eq!(sorted_distinct(&vec![7]), vec![7]);
}

#[test]
fn parallel_isogenies_keep_only_shared_good_extensions() {
    // two isogenies 0 -> 1: the first extends to 2 and 1, the second to 1 and 0
    let keys = vec![(0, 1), (0, 1), (1, 1), (1, 2), (1, 0), (2, 0)];
    let nexts = vec![vec![2, 1, 1], vec![1, 0], vec![1], vec![0], vec![1], vec![1]];
    let (nodes, g) = build_good_extension_graph(&keys, &nexts);
    assert_eq!(nodes, vec![(0, 1), (1, 0), (1, 1), (1, 2), (2, 0)]);
    assert_eq!(g.n, 5);
    // only the shared extension 1 survives: (0,1) -> (1,1)
    assert_eq!(g.adj, vec![vec![2], vec![0], vec![2], vec![4], vec![0]]);
}

#[test]
fn every_shared_extension_gives_an_edge_in_order() {
    let keys = vec![(0, 0), (0, 1), (0, 2)];
    let nexts = vec![vec![2, 1, 0], vec![], vec![]];
    let (nodes, g) = build_good_extension_graph(&keys, &nexts);
    assert_eq!(nodes, vec![(0, 0), (0, 1), (0, 2)]);
    assert_eq!(g.adj, vec![vec![0, 1, 2], vec![], vec![]]);
}

#[test]
fn merged_graph_through_components_to_findings() {
    let keys = vec![(0, 1), (0, 1), (1, 1), (1, 2), (1, 0), (2, 0)];
    let nexts = vec![vec![2, 1, 1], vec![1, 0], vec![1], vec![0], vec![1], vec![1]];
    let (nodes, g) = build_good_extension_graph(&keys, &nexts);
    let (sccs, condensed, _) = g.scc_and_condense();
    let total: usize = sccs.iter().map(|c| c.len()).sum();
    assert_eq!(total, nodes.len());
    let r = summarize_connectivity(3, &nodes, &g, &sccs, condensed, false);
    assert_eq!(r.vertex_count, 5);
    assert_eq!(r.edge_count, 5);
    assert_eq!(r.scc_count, sccs.len());
    assert!(!r.is_strongly_connected);
}
