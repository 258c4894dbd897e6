//! Laws of strongly connected components that do not depend on how they are
//! found: `DirectedGraph::scc` and `DirectedGraph::scc_and_condense` both give
//! a decomposition, and any two decompositions of one graph have the same
//! number of components and the same components as sets of vertices.
use crate::graph::{lists_contain, DirectedGraph};
use vstd::prelude::*;
use vstd::relations::injective_on;
use vstd::set_lib::{lemma_int_range, lemma_len_subset, lemma_map_size, set_int_range};

verus! {

/// The position in `s2` of the component that holds the first vertex of the
/// `i`-th component of `s1`.
pub open spec fn component_of_first(s1: Seq<Seq<usize>>, s2: Seq<Seq<usize>>, i: int) -> int {
    first_place(s1, s2, i).0
}

/// A place `(i2, j2)` in `s2` of the first vertex of the `i`-th component of
/// `s1`.
pub open spec fn first_place(s1: Seq<Seq<usize>>, s2: Seq<Seq<usize>>, i: int) -> (int, int) {
    choose|i2: int, j2: int| 0 <= i2 < s2.len() && 0 <= j2 < s2[i2].len() && #[trigger] s2[i2][j2] == s1[i][0]
}

/// A decomposition has no more components than another one of the same graph.
proof fn lemma_scc_count_le(g: DirectedGraph, s1: Seq<Seq<usize>>, s2: Seq<Seq<usize>>)
    requires
        g.is_scc_decomposition(s1),
        g.is_scc_decomposition(s2),
    ensures
        s1.len() <= s2.len(),
{
    let f = |i: int| component_of_first(s1, s2, i);
    let dom = set_int_range(0, s1.len() as int);
    let img = dom.map(f);
    lemma_int_range(0, s1.len() as int);
    lemma_int_range(0, s2.len() as int);
    assert forall|i: int| 0 <= i < s1.len() implies ({
        let (i2, j2) = #[trigger] first_place(s1, s2, i);
        0 <= i2 < s2.len() && 0 <= j2 < s2[i2].len() && s2[i2][j2] == s1[i][0]
    }) by {
        assert(s1[i].len() > 0);
        assert(lists_contain(s2, s1[i][0] as int));
    }
    assert(injective_on(f, dom)) by {
        assert forall|x1: int, x2: int| dom.contains(x1) && dom.contains(x2) && #[trigger] f(x1) == #[trigger] f(x2) implies x1
            == x2 by {
            let (i2, ja) = first_place(s1, s2, x1);
            let (i3, jb) = first_place(s1, s2, x2);
            assert(i2 == i3);
            assert(s1[x1].len() > 0 && s1[x2].len() > 0);
            assert(g.reaches(s2[i2][ja] as int, s2[i2][jb] as int) && g.reaches(s2[i2][jb] as int, s2[i2][ja] as int));
            assert(g.reaches(s1[x1][0] as int, s1[x2][0] as int) && g.reaches(s1[x2][0] as int, s1[x1][0] as int));
        }
    }
    assert forall|y: int| img.contains(y) implies set_int_range(0, s2.len() as int).contains(y) by {
        let x = choose|x: int| dom.contains(x) && f(x) == y;
        let (i2, j2) = first_place(s1, s2, x);
    }
    lemma_map_size(dom, img, f);
    lemma_len_subset(img, set_int_range(0, s2.len() as int));
}

/// Any two strongly-connected-component decompositions of one graph (such as
/// those `scc` and `scc_and_condense` return) have the same number of
/// components; `DirectedGraph::lemma_scc_components_unique` shows that each
/// component of one is, as a set of vertices, a component of the other.
pub proof fn lemma_scc_count_unique(g: DirectedGraph, s1: Seq<Seq<usize>>, s2: Seq<Seq<usize>>)
    requires
        g.is_scc_decomposition(s1),
        g.is_scc_decomposition(s2),
    ensures
        s1.len() == s2.len(),
{
    lemma_scc_count_le(g, s1, s2);
    lemma_scc_count_le(g, s2, s1);
}

} // verus!
