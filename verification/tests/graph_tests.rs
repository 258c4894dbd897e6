use g2_isogeny::graph::DirectedGraph;

/// Normalize result order (within components and between components) for easier comparison
fn normalize(mut sccs: Vec<Vec<usize>>) -> Vec<Vec<usize>> {
    for comp in &mut sccs {
        comp.sort();
    }
    sccs.sort_by(|a, b| a[0].cmp(&b[0]));
    sccs
}

#[test]
fn test_simple_cycle() {
    // Graph: 0 -> 1 -> 2 -> 0 (one strongly connected component)
    let adj = vec![vec![1], vec![2], vec![0]];
    let graph = DirectedGraph::from_adj(adj);
    let (sccs, _) = graph.scc();
    let result = normalize(sccs);
    assert_eq!(result, vec![vec![0, 1, 2]]);
}

#[test]
fn test_disconnected_cycles() {
    // Graph: 0<->1 and 2<->3 exist disconnected
    let adj = vec![vec![1], vec![0], vec![3], vec![2]];
    let graph = DirectedGraph::from_adj(adj);
    let (sccs, _) = graph.scc();
    let result = normalize(sccs);
    assert_eq!(result, vec![vec![0, 1], vec![2, 3]]);
}

#[test]
fn test_standalone_function() {
    // Graph: 0 -> 1 -> 2, and 2 -> 1 (1 and 2 form loop, 0 leads into it)
    let adj = vec![vec![1], vec![2], vec![1]];
    let graph = DirectedGraph::from_adj(adj);
    let (sccs, _) = graph.scc();
    let result = normalize(sccs);
    assert_eq!(result, vec![vec![0], vec![1, 2]]);
}

#[test]
fn scc_lists_components_in_topological_order() {
    // 0 -> 1 -> 2 -> 3: four singleton components, listed in edge order
    let graph = DirectedGraph::from_adj(vec![vec![1], vec![2], vec![3], vec![]]);
    let (sccs, _) = graph.scc();
    assert_eq!(sccs, vec![vec![0], vec![1], vec![2], vec![3]]);
}

#[test]
fn scc_of_empty_graph() {
    let graph = DirectedGraph::from_adj(vec![]);
    let (sccs, _) = graph.scc();
    assert!(sccs.is_empty());
}

#[test]
fn scc_with_self_loop_and_repeated_edges() {
    let graph = DirectedGraph::from_adj(vec![vec![0, 1, 1], vec![]]);
    let (sccs, _) = graph.scc();
    assert_eq!(sccs, vec![vec![0], vec![1]]);
}

#[test]
fn condense_collects_component_edges() {
    // {0, 1} -> {2}, with an edge inside {0, 1}
    let graph = DirectedGraph::from_adj(vec![vec![1, 2], vec![0, 2], vec![]]);
    let (sccs, condensed, _) = graph.scc_and_condense();
    assert_eq!(normalize(sccs.clone()), vec![vec![0, 1], vec![2]]);
    assert_eq!(condensed.n, 2);
    assert_eq!(sccs.len(), 2);
    let first = if sccs[0].contains(&0) { 0 } else { 1 };
    let second = 1 - first;
    // the internal edge gives a loop on the component of {0, 1}
    assert_eq!(condensed.adj[first], {
        let mut v = vec![first, second];
        v.sort();
        v
    });
    assert!(condensed.adj[second].is_empty());
    // condensed edges never lead backwards
    for (i, succs) in condensed.adj.iter().enumerate() {
        for &j in succs {
            assert!(i <= j);
        }
    }
}

#[test]
fn scc_and_condense_finds_the_components_of_scc() {
    // 0 <-> 1 -> 2 <-> 3, 4 alone
    let adj = vec![vec![1], vec![0, 2], vec![3], vec![2], vec![]];
    let graph = DirectedGraph::from_adj(adj);
    let (s1, _) = graph.scc();
    let (s2, condensed, _) = graph.scc_and_condense();
    assert_eq!(s1.len(), s2.len());
    assert_eq!(condensed.n, s2.len());
    let mut a: Vec<Vec<usize>> = s1.iter().map(|c| { let mut c = c.clone(); c.sort(); c }).collect();
    let mut b: Vec<Vec<usize>> = s2.iter().map(|c| { let mut c = c.clone(); c.sort(); c }).collect();
    a.sort();
    b.sort();
    assert_eq!(a, b);
    assert_eq!(a, vec![vec![0, 1], vec![2, 3], vec![4]]);
}
