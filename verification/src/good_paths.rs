//! Good paths between the main component of a good-extension graph and its
//! minor components, searched for among the (2,2)-isogenies of the surfaces:
//! from a node of the main component through an isogeny and a good extension
//! onto a node `(j0, j1)` of a minor component, and from such a node through
//! an isogeny and a good extension into the main component.
use crate::fp4::{d2_of, f4_field, F4, Fp4};
use crate::fq::dmod;
use crate::graph::{lists_contain, seqs_of, DirectedGraph};
use crate::reachability::edge_total;
use crate::utils::{
    connectivity_summary, contains_value, first_largest, largest_component, summarize_connectivity, AnalysisResult,
};
use crate::rosenhain::{IgusaInvariants, Rosenhain};
use crate::ssg::{igv, same_invariants};
use crate::ssg_walk::{neighbour, ssg_igusa, ssg_ram, ssg_step, ssg_step_ok, tview};
use crate::theta::{th_built4, th_rosenhain_buildable4, Theta};
use vstd::prelude::*;

verus! {

/// The Igusa invariants of the surface of the null-point `t`.
pub open spec fn ig_of(t: Seq<F4>, d: int, e: (int, int), p: int) -> (F4, F4, F4) {
    ssg_igusa(ssg_ram(t, d, e, p), d, e, p)
}

/// The node `b` lies in the main component, leaves the surface `j`, and
/// enters a surface with the Igusa invariants `x`.
pub open spec fn main_node_from<const P: u32, const D1: u32, const D2C0: u32, const D2C1: u32>(
    invs: Seq<IgusaInvariants<Fp4<P, D1, D2C0, D2C1>>>,
    nodes: Seq<(usize, usize)>,
    in_main: Seq<bool>,
    j: usize,
    x: (F4, F4, F4),
    b: int,
) -> bool {
    &&& 0 <= b < nodes.len()
    &&& b < in_main.len()
    &&& in_main[b]
    &&& nodes[b].0 == j
    &&& nodes[b].1 < invs.len()
    &&& igv(invs[nodes[b].1 as int]) == x
}

/// The node `b` lies in the main component, leaves a surface with the Igusa
/// invariants `x`, and enters the surface `j`.
pub open spec fn main_node_into<const P: u32, const D1: u32, const D2C0: u32, const D2C1: u32>(
    invs: Seq<IgusaInvariants<Fp4<P, D1, D2C0, D2C1>>>,
    nodes: Seq<(usize, usize)>,
    in_main: Seq<bool>,
    j: usize,
    x: (F4, F4, F4),
    b: int,
) -> bool {
    &&& 0 <= b < nodes.len()
    &&& b < in_main.len()
    &&& in_main[b]
    &&& nodes[b].1 == j
    &&& nodes[b].0 < invs.len()
    &&& igv(invs[nodes[b].0 as int]) == x
}

/// The `k`-th good extension of the null-point `c` can be computed and its
/// image is the surface `j`.
pub open spec fn ext_onto<const P: u32, const D1: u32, const D2C0: u32, const D2C1: u32>(
    invs: Seq<IgusaInvariants<Fp4<P, D1, D2C0, D2C1>>>,
    j: usize,
    c: Seq<F4>,
    k: int,
) -> bool {
    let (d, e, p) = (dmod(D1, P), d2_of(D2C0, D2C1, P), P as int);
    &&& 0 <= k < 8
    &&& ssg_step_ok(c, k, d, e, p)
    &&& j < invs.len()
    &&& ig_of(ssg_step(c, k, d, e, p), d, e, p) == igv(invs[j as int])
}

/// The `k`-th good extension of the null-point `c` can be computed, and a node
/// of the main component goes from the surface `j` to the surface of its
/// image.
pub open spec fn ext_into_main<const P: u32, const D1: u32, const D2C0: u32, const D2C1: u32>(
    invs: Seq<IgusaInvariants<Fp4<P, D1, D2C0, D2C1>>>,
    nodes: Seq<(usize, usize)>,
    in_main: Seq<bool>,
    j: usize,
    c: Seq<F4>,
    k: int,
) -> bool {
    let (d, e, p) = (dmod(D1, P), d2_of(D2C0, D2C1, P), P as int);
    &&& 0 <= k < 8
    &&& ssg_step_ok(c, k, d, e, p)
    &&& exists|b: int| #[trigger] main_node_from(invs, nodes, in_main, j, ig_of(ssg_step(c, k, d, e, p), d, e, p), b)
}

/// The `m`-th isogeny out of `t` can be computed, its image is the surface
/// `j1`, and a good extension of the image leads into the main component.
pub open spec fn step_to_main<const P: u32, const D1: u32, const D2C0: u32, const D2C1: u32>(
    invs: Seq<IgusaInvariants<Fp4<P, D1, D2C0, D2C1>>>,
    nodes: Seq<(usize, usize)>,
    in_main: Seq<bool>,
    j1: usize,
    t: Seq<F4>,
    m: int,
) -> bool {
    let (d, e, p) = (dmod(D1, P), d2_of(D2C0, D2C1, P), P as int);
    let c = ssg_step(t, m, d, e, p);
    &&& 0 <= m < 15
    &&& ssg_step_ok(t, m, d, e, p)
    &&& j1 < invs.len()
    &&& ig_of(c, d, e, p) == igv(invs[j1 as int])
    &&& exists|k: int| #[trigger] ext_into_main(invs, nodes, in_main, j1, c, k)
}

/// The `m2`-th isogeny out of `prev` can be computed, its image is the surface
/// `j0`, and a good extension of the image is the surface `j1`.
pub open spec fn step_onto<const P: u32, const D1: u32, const D2C0: u32, const D2C1: u32>(
    invs: Seq<IgusaInvariants<Fp4<P, D1, D2C0, D2C1>>>,
    j0: usize,
    j1: usize,
    prev: Seq<F4>,
    m2: int,
) -> bool {
    let (d, e, p) = (dmod(D1, P), d2_of(D2C0, D2C1, P), P as int);
    let c = ssg_step(prev, m2, d, e, p);
    &&& 0 <= m2 < 15
    &&& ssg_step_ok(prev, m2, d, e, p)
    &&& j0 < invs.len()
    &&& ig_of(c, d, e, p) == igv(invs[j0 as int])
    &&& exists|k: int| #[trigger] ext_onto(invs, j1, c, k)
}

/// The `m1`-th isogeny out of `t` (of the surface `j0`) can be computed, the
/// node from the surface of its image to `j0` lies in the main component, and
/// an isogeny out of the image followed by a good extension goes from `j0` to
/// `j1`.
pub open spec fn step_from_main<const P: u32, const D1: u32, const D2C0: u32, const D2C1: u32>(
    invs: Seq<IgusaInvariants<Fp4<P, D1, D2C0, D2C1>>>,
    nodes: Seq<(usize, usize)>,
    in_main: Seq<bool>,
    j0: usize,
    j1: usize,
    t: Seq<F4>,
    m1: int,
) -> bool {
    let (d, e, p) = (dmod(D1, P), d2_of(D2C0, D2C1, P), P as int);
    let prev = ssg_step(t, m1, d, e, p);
    &&& 0 <= m1 < 15
    &&& ssg_step_ok(t, m1, d, e, p)
    &&& (exists|b: int| #[trigger] main_node_into(invs, nodes, in_main, j0, ig_of(prev, d, e, p), b))
    &&& exists|m2: int| #[trigger] step_onto(invs, j0, j1, prev, m2)
}

/// The null-point that `from_rosenhain` builds for the surface `j`, which it
/// can build.
#[verifier::opaque]
pub open spec fn surface_theta<const P: u32, const D1: u32, const D2C0: u32, const D2C1: u32>(
    rams: Seq<Rosenhain<Fp4<P, D1, D2C0, D2C1>>>,
    j: usize,
) -> Seq<F4> {
    let r = rams[j as int];
    th_built4(r.la@, r.mu@, r.nu@, dmod(D1, P), d2_of(D2C0, D2C1, P), P as int)
}

/// `from_rosenhain` can build the null-point of the surface `j`.
#[verifier::opaque]
pub open spec fn surface_buildable<const P: u32, const D1: u32, const D2C0: u32, const D2C1: u32>(
    rams: Seq<Rosenhain<Fp4<P, D1, D2C0, D2C1>>>,
    j: usize,
) -> bool {
    let r = rams[j as int];
    j < rams.len() && th_rosenhain_buildable4(r.la@, r.mu@, r.nu@, dmod(D1, P), d2_of(D2C0, D2C1, P), P as int)
}

/// The `q`-th node `(j0, j1)` of the component `comp` is reached from the main
/// component by a good path: an isogeny out of `j0` comes back from a surface
/// `prev` such that `(prev, j0)` lies in the main component, and an isogeny
/// out of `prev` onto `j0` followed by a good extension reaches `j1`.
pub open spec fn good_from_main_at<const P: u32, const D1: u32, const D2C0: u32, const D2C1: u32>(
    invs: Seq<IgusaInvariants<Fp4<P, D1, D2C0, D2C1>>>,
    rams: Seq<Rosenhain<Fp4<P, D1, D2C0, D2C1>>>,
    nodes: Seq<(usize, usize)>,
    in_main: Seq<bool>,
    comp: Seq<usize>,
    q: int,
) -> bool {
    &&& 0 <= q < comp.len()
    &&& comp[q] < nodes.len()
    &&& surface_buildable(rams, nodes[comp[q] as int].0)
    &&& exists|m1: int|
        #[trigger] step_from_main(
            invs,
            nodes,
            in_main,
            nodes[comp[q] as int].0,
            nodes[comp[q] as int].1,
            surface_theta(rams, nodes[comp[q] as int].0),
            m1,
        )
}

/// The `q`-th node `(j0, j1)` of the component `comp` leads into the main
/// component by a good path: an isogeny out of `j0` onto `j1` followed by a
/// good extension reaches a surface `next` with `(j1, next)` in the main
/// component.
pub open spec fn good_to_main_at<const P: u32, const D1: u32, const D2C0: u32, const D2C1: u32>(
    invs: Seq<IgusaInvariants<Fp4<P, D1, D2C0, D2C1>>>,
    rams: Seq<Rosenhain<Fp4<P, D1, D2C0, D2C1>>>,
    nodes: Seq<(usize, usize)>,
    in_main: Seq<bool>,
    comp: Seq<usize>,
    q: int,
) -> bool {
    &&& 0 <= q < comp.len()
    &&& comp[q] < nodes.len()
    &&& surface_buildable(rams, nodes[comp[q] as int].0)
    &&& exists|m: int|
        #[trigger] step_to_main(
            invs,
            nodes,
            in_main,
            nodes[comp[q] as int].1,
            surface_theta(rams, nodes[comp[q] as int].0),
            m,
        )
}

/// The null-point of the surface `j` that `from_rosenhain` builds, or `None`
/// where there is no such surface or it cannot be built.
fn surface_null_point<const P: u32, const D1: u32, const D2C0: u32, const D2C1: u32>(
    rams: &Vec<Rosenhain<Fp4<P, D1, D2C0, D2C1>>>,
    j: usize,
) -> (r: Option<Theta<Fp4<P, D1, D2C0, D2C1>>>)
    requires
        f4_field(P, D1, D2C0, D2C1),
    ensures
        r is Some <==> surface_buildable(rams@, j),
        r matches Some(t) ==> tview(t) == surface_theta(rams@, j),
{
    proof {
        reveal(surface_buildable);
        reveal(surface_theta);
    }
    if j >= rams.len() {
        return None;
    }
    Theta::<Fp4<P, D1, D2C0, D2C1>>::try_from_rosenhain(&rams[j])
}

/// Whether some node of the main component leaves the surface `j` for a
/// surface with the Igusa invariants `x`.
fn find_main_node_from<const P: u32, const D1: u32, const D2C0: u32, const D2C1: u32>(
    invs: &Vec<IgusaInvariants<Fp4<P, D1, D2C0, D2C1>>>,
    nodes: &Vec<(usize, usize)>,
    in_main: &Vec<bool>,
    j: usize,
    x: &IgusaInvariants<Fp4<P, D1, D2C0, D2C1>>,
) -> (r: bool)
    ensures
        r == exists|b: int| #[trigger] main_node_from(invs@, nodes@, in_main@, j, igv(*x), b),
{
    let mut b: usize = 0;
    while b < nodes.len()
        invariant
            b <= nodes.len(),
            forall|c: int| 0 <= c < b ==> !#[trigger] main_node_from(invs@, nodes@, in_main@, j, igv(*x), c),
        decreases nodes.len() - b,
    {
        let (u, v) = nodes[b];
        if b < in_main.len() && in_main[b] && u == j && v < invs.len() && same_invariants(&invs[v], x) {
            assert(main_node_from(invs@, nodes@, in_main@, j, igv(*x), b as int));
            return true;
        }
        b = b + 1;
    }
    false
}

/// Whether some node of the main component enters the surface `j` from a
/// surface with the Igusa invariants `x`.
fn find_main_node_into<const P: u32, const D1: u32, const D2C0: u32, const D2C1: u32>(
    invs: &Vec<IgusaInvariants<Fp4<P, D1, D2C0, D2C1>>>,
    nodes: &Vec<(usize, usize)>,
    in_main: &Vec<bool>,
    j: usize,
    x: &IgusaInvariants<Fp4<P, D1, D2C0, D2C1>>,
) -> (r: bool)
    ensures
        r == exists|b: int| #[trigger] main_node_into(invs@, nodes@, in_main@, j, igv(*x), b),
{
    let mut b: usize = 0;
    while b < nodes.len()
        invariant
            b <= nodes.len(),
            forall|c: int| 0 <= c < b ==> !#[trigger] main_node_into(invs@, nodes@, in_main@, j, igv(*x), c),
        decreases nodes.len() - b,
    {
        let (u, v) = nodes[b];
        if b < in_main.len() && in_main[b] && v == j && u < invs.len() && same_invariants(&invs[u], x) {
            assert(main_node_into(invs@, nodes@, in_main@, j, igv(*x), b as int));
            return true;
        }
        b = b + 1;
    }
    false
}

/// Whether a good extension of `c` leads into the main component from `j`.
fn extends_into_main<const P: u32, const D1: u32, const D2C0: u32, const D2C1: u32>(
    invs: &Vec<IgusaInvariants<Fp4<P, D1, D2C0, D2C1>>>,
    nodes: &Vec<(usize, usize)>,
    in_main: &Vec<bool>,
    j: usize,
    c: &Theta<Fp4<P, D1, D2C0, D2C1>>,
) -> (r: bool)
    requires
        f4_field(P, D1, D2C0, D2C1),
        P > 5,
    ensures
        r == exists|k: int| #[trigger] ext_into_main(invs@, nodes@, in_main@, j, tview(*c), k),
{
    let ghost (d, e, p) = (dmod(D1, P), d2_of(D2C0, D2C1, P), P as int);
    let mut k: usize = 0;
    while k < 8
        invariant
            k <= 8,
            f4_field(P, D1, D2C0, D2C1),
            P > 5,
            d == dmod(D1, P),
            e == d2_of(D2C0, D2C1, P),
            p == P as int,
            forall|k2: int| 0 <= k2 < k ==> !#[trigger] ext_into_main(invs@, nodes@, in_main@, j, tview(*c), k2),
        decreases 8 - k,
    {
        match neighbour(c, k) {
            Some((nt, _, ninv)) => {
                if find_main_node_from(invs, nodes, in_main, j, &ninv) {
                    proof {
                        let b = choose|b: int| #[trigger] main_node_from(invs@, nodes@, in_main@, j, igv(ninv), b);
                        assert(igv(ninv) == ig_of(ssg_step(tview(*c), k as int, d, e, p), d, e, p));
                        assert(main_node_from(invs@, nodes@, in_main@, j, ig_of(ssg_step(tview(*c), k as int, d, e, p), d, e, p), b));
                    }
                    assert(ext_into_main(invs@, nodes@, in_main@, j, tview(*c), k as int));
                    return true;
                }
            },
            None => {},
        }
        k = k + 1;
    }
    false
}

/// Whether a good extension of `c` is the surface `j`.
fn extends_onto<const P: u32, const D1: u32, const D2C0: u32, const D2C1: u32>(
    invs: &Vec<IgusaInvariants<Fp4<P, D1, D2C0, D2C1>>>,
    j: usize,
    c: &Theta<Fp4<P, D1, D2C0, D2C1>>,
) -> (r: bool)
    requires
        f4_field(P, D1, D2C0, D2C1),
        P > 5,
    ensures
        r == exists|k: int| #[trigger] ext_onto(invs@, j, tview(*c), k),
{
    let ghost (d, e, p) = (dmod(D1, P), d2_of(D2C0, D2C1, P), P as int);
    let mut k: usize = 0;
    while k < 8
        invariant
            k <= 8,
            f4_field(P, D1, D2C0, D2C1),
            P > 5,
            d == dmod(D1, P),
            e == d2_of(D2C0, D2C1, P),
            p == P as int,
            forall|k2: int| 0 <= k2 < k ==> !#[trigger] ext_onto(invs@, j, tview(*c), k2),
        decreases 8 - k,
    {
        match neighbour(c, k) {
            Some((nt, _, ninv)) => {
                if j < invs.len() && same_invariants(&ninv, &invs[j]) {
                    assert(ext_onto(invs@, j, tview(*c), k as int));
                    return true;
                }
            },
            None => {},
        }
        k = k + 1;
    }
    false
}

/// Whether an isogeny out of `t` onto `j1` has a good extension into the main
/// component.
fn steps_to_main<const P: u32, const D1: u32, const D2C0: u32, const D2C1: u32>(
    invs: &Vec<IgusaInvariants<Fp4<P, D1, D2C0, D2C1>>>,
    nodes: &Vec<(usize, usize)>,
    in_main: &Vec<bool>,
    j1: usize,
    t: &Theta<Fp4<P, D1, D2C0, D2C1>>,
) -> (r: bool)
    requires
        f4_field(P, D1, D2C0, D2C1),
        P > 5,
    ensures
        r == exists|m: int| #[trigger] step_to_main(invs@, nodes@, in_main@, j1, tview(*t), m),
{
    let ghost (d, e, p) = (dmod(D1, P), d2_of(D2C0, D2C1, P), P as int);
    let mut m: usize = 0;
    while m < 15
        invariant
            m <= 15,
            f4_field(P, D1, D2C0, D2C1),
            P > 5,
            d == dmod(D1, P),
            e == d2_of(D2C0, D2C1, P),
            p == P as int,
            forall|m2: int| 0 <= m2 < m ==> !#[trigger] step_to_main(invs@, nodes@, in_main@, j1, tview(*t), m2),
        decreases 15 - m,
    {
        match neighbour(t, m) {
            Some((c, _, cinv)) => {
                if j1 < invs.len() && same_invariants(&cinv, &invs[j1]) {
                    if extends_into_main(invs, nodes, in_main, j1, &c) {
                        assert(step_to_main(invs@, nodes@, in_main@, j1, tview(*t), m as int));
                        return true;
                    }
                }
            },
            None => {},
        }
        m = m + 1;
    }
    false
}

/// Whether an isogeny out of `prev` onto `j0` has a good extension onto `j1`.
fn steps_onto<const P: u32, const D1: u32, const D2C0: u32, const D2C1: u32>(
    invs: &Vec<IgusaInvariants<Fp4<P, D1, D2C0, D2C1>>>,
    j0: usize,
    j1: usize,
    prev: &Theta<Fp4<P, D1, D2C0, D2C1>>,
) -> (r: bool)
    requires
        f4_field(P, D1, D2C0, D2C1),
        P > 5,
    ensures
        r == exists|m2: int| #[trigger] step_onto(invs@, j0, j1, tview(*prev), m2),
{
    let ghost (d, e, p) = (dmod(D1, P), d2_of(D2C0, D2C1, P), P as int);
    let mut m: usize = 0;
    while m < 15
        invariant
            m <= 15,
            f4_field(P, D1, D2C0, D2C1),
            P > 5,
            d == dmod(D1, P),
            e == d2_of(D2C0, D2C1, P),
            p == P as int,
            forall|m2: int| 0 <= m2 < m ==> !#[trigger] step_onto(invs@, j0, j1, tview(*prev), m2),
        decreases 15 - m,
    {
        match neighbour(prev, m) {
            Some((c, _, cinv)) => {
                if j0 < invs.len() && same_invariants(&cinv, &invs[j0]) {
                    if extends_onto(invs, j1, &c) {
                        assert(step_onto(invs@, j0, j1, tview(*prev), m as int));
                        return true;
                    }
                }
            },
            None => {},
        }
        m = m + 1;
    }
    false
}

/// Whether an isogeny out of `t` (of the surface `j0`) comes back from the
/// main component and leads on to `j1`.
fn steps_from_main<const P: u32, const D1: u32, const D2C0: u32, const D2C1: u32>(
    invs: &Vec<IgusaInvariants<Fp4<P, D1, D2C0, D2C1>>>,
    nodes: &Vec<(usize, usize)>,
    in_main: &Vec<bool>,
    j0: usize,
    j1: usize,
    t: &Theta<Fp4<P, D1, D2C0, D2C1>>,
) -> (r: bool)
    requires
        f4_field(P, D1, D2C0, D2C1),
        P > 5,
    ensures
        r == exists|m1: int| #[trigger] step_from_main(invs@, nodes@, in_main@, j0, j1, tview(*t), m1),
{
    let ghost (d, e, p) = (dmod(D1, P), d2_of(D2C0, D2C1, P), P as int);
    let mut m: usize = 0;
    while m < 15
        invariant
            m <= 15,
            f4_field(P, D1, D2C0, D2C1),
            P > 5,
            d == dmod(D1, P),
            e == d2_of(D2C0, D2C1, P),
            p == P as int,
            forall|m2: int| 0 <= m2 < m ==> !#[trigger] step_from_main(invs@, nodes@, in_main@, j0, j1, tview(*t), m2),
        decreases 15 - m,
    {
        match neighbour(t, m) {
            Some((prev, _, pinv)) => {
                if find_main_node_into(invs, nodes, in_main, j0, &pinv) {
                    if steps_onto(invs, j0, j1, &prev) {
                        proof {
                            let b = choose|b: int| #[trigger] main_node_into(invs@, nodes@, in_main@, j0, igv(pinv), b);
                            assert(igv(pinv) == ig_of(tview(prev), d, e, p));
                            assert(main_node_into(invs@, nodes@, in_main@, j0, ig_of(tview(prev), d, e, p), b));
                        }
                        assert(step_from_main(invs@, nodes@, in_main@, j0, j1, tview(*t), m as int));
                        return true;
                    }
                }
            },
            None => {},
        }
        m = m + 1;
    }
    false
}

/// Whether some node of the component `comp` is reached from the main
/// component by a good path.
pub fn has_good_path_from_main<const P: u32, const D1: u32, const D2C0: u32, const D2C1: u32>(
    invs: &Vec<IgusaInvariants<Fp4<P, D1, D2C0, D2C1>>>,
    rams: &Vec<Rosenhain<Fp4<P, D1, D2C0, D2C1>>>,
    nodes: &Vec<(usize, usize)>,
    in_main: &Vec<bool>,
    comp: &Vec<usize>,
) -> (r: bool)
    requires
        f4_field(P, D1, D2C0, D2C1),
        P > 5,
    ensures
        r == exists|q: int| #[trigger] good_from_main_at(invs@, rams@, nodes@, in_main@, comp@, q),
{
    let mut q: usize = 0;
    while q < comp.len()
        invariant
            q <= comp.len(),
            f4_field(P, D1, D2C0, D2C1),
            P > 5,
            forall|q2: int| 0 <= q2 < q ==> !#[trigger] good_from_main_at(invs@, rams@, nodes@, in_main@, comp@, q2),
        decreases comp.len() - q,
    {
        let v = comp[q];
        if v < nodes.len() {
            let (j0, j1) = nodes[v];
            {
                match surface_null_point(rams, j0) {
                    Some(t0) => {
                        if steps_from_main(invs, nodes, in_main, j0, j1, &t0) {
                            assert(good_from_main_at(invs@, rams@, nodes@, in_main@, comp@, q as int));
                            return true;
                        }
                    },
                    None => {},
                }
            }
        }
        q = q + 1;
    }
    false
}

/// Whether some node of the component `comp` leads into the main component
/// by a good path.
pub fn has_good_path_to_main<const P: u32, const D1: u32, const D2C0: u32, const D2C1: u32>(
    invs: &Vec<IgusaInvariants<Fp4<P, D1, D2C0, D2C1>>>,
    rams: &Vec<Rosenhain<Fp4<P, D1, D2C0, D2C1>>>,
    nodes: &Vec<(usize, usize)>,
    in_main: &Vec<bool>,
    comp: &Vec<usize>,
) -> (r: bool)
    requires
        f4_field(P, D1, D2C0, D2C1),
        P > 5,
    ensures
        r == exists|q: int| #[trigger] good_to_main_at(invs@, rams@, nodes@, in_main@, comp@, q),
{
    let mut q: usize = 0;
    while q < comp.len()
        invariant
            q <= comp.len(),
            f4_field(P, D1, D2C0, D2C1),
            P > 5,
            forall|q2: int| 0 <= q2 < q ==> !#[trigger] good_to_main_at(invs@, rams@, nodes@, in_main@, comp@, q2),
        decreases comp.len() - q,
    {
        let v = comp[q];
        if v < nodes.len() {
            let (j0, j1) = nodes[v];
            {
                match surface_null_point(rams, j0) {
                    Some(t0) => {
                        if steps_to_main(invs, nodes, in_main, j1, &t0) {
                            assert(good_to_main_at(invs@, rams@, nodes@, in_main@, comp@, q as int));
                            return true;
                        }
                    },
                    None => {},
                }
            }
        }
        q = q + 1;
    }
    false
}

/// For each node, whether it lies in the component `comp`.
pub open spec fn in_component(comp: Seq<usize>, n: nat) -> Seq<bool> {
    Seq::new(n, |b: int| comp.contains(b as usize))
}

/// The minor component `i` (with the nodes `comp`) is joined to the main one
/// both ways: an edge of the condensed graph, or a good path, leads from the
/// main component into it, and one leads from it back into the main one.
pub open spec fn minor_joined<const P: u32, const D1: u32, const D2C0: u32, const D2C1: u32>(
    invs: Seq<IgusaInvariants<Fp4<P, D1, D2C0, D2C1>>>,
    rams: Seq<Rosenhain<Fp4<P, D1, D2C0, D2C1>>>,
    nodes: Seq<(usize, usize)>,
    in_main: Seq<bool>,
    condensed: DirectedGraph,
    main: int,
    i: int,
    comp: Seq<usize>,
) -> bool {
    &&& (condensed.adj@[main]@.contains(i as usize) || exists|q: int|
        #[trigger] good_from_main_at(invs, rams, nodes, in_main, comp, q))
    &&& (condensed.adj@[i]@.contains(main as usize) || exists|q: int|
        #[trigger] good_to_main_at(invs, rams, nodes, in_main, comp, q))
}

/// Every minor component is joined to the main component `main` both ways.
pub open spec fn ge_good_paths<const P: u32, const D1: u32, const D2C0: u32, const D2C1: u32>(
    invs: Seq<IgusaInvariants<Fp4<P, D1, D2C0, D2C1>>>,
    rams: Seq<Rosenhain<Fp4<P, D1, D2C0, D2C1>>>,
    nodes: Seq<(usize, usize)>,
    sccs: Seq<Seq<usize>>,
    condensed: DirectedGraph,
    main: int,
) -> bool {
    forall|i: int|
        0 <= i < sccs.len() && i != main ==> #[trigger] minor_joined(
            invs,
            rams,
            nodes,
            in_component(sccs[main], nodes.len()),
            condensed,
            main,
            i,
            sccs[i],
        )
}

/// For each node, whether it lies in the component `comp`.
fn component_flags(comp: &Vec<usize>, n: usize) -> (r: Vec<bool>)
    ensures
        r@ == in_component(comp@, n as nat),
{
    let mut r: Vec<bool> = Vec::new();
    let mut b: usize = 0;
    while b < n
        invariant
            b <= n,
            r@ == in_component(comp@, b as nat),
        decreases n - b,
    {
        let f = contains_value(comp, b);
        r.push(f);
        proof {
            assert(r@ =~= in_component(comp@, (b + 1) as nat));
        }
        b = b + 1;
    }
    r
}

/// Whether every minor component is joined to the main component `main` both
/// ways, by an edge of the condensed graph or by a good path.
pub fn good_paths_between<const P: u32, const D1: u32, const D2C0: u32, const D2C1: u32>(
    invs: &Vec<IgusaInvariants<Fp4<P, D1, D2C0, D2C1>>>,
    rams: &Vec<Rosenhain<Fp4<P, D1, D2C0, D2C1>>>,
    nodes: &Vec<(usize, usize)>,
    sccs: &Vec<Vec<usize>>,
    condensed: &DirectedGraph,
    main: usize,
) -> (r: bool)
    requires
        f4_field(P, D1, D2C0, D2C1),
        P > 5,
        main < sccs.len(),
        condensed.adj.len() == sccs.len(),
    ensures
        r == ge_good_paths(invs@, rams@, nodes@, seqs_of(sccs@), *condensed, main as int),
{
    let ghost s = seqs_of(sccs@);
    let in_main = component_flags(&sccs[main], nodes.len());
    proof {
        assert(s[main as int] == sccs@[main as int]@);
    }
    let mut i: usize = 0;
    while i < sccs.len()
        invariant
            i <= sccs.len(),
            main < sccs.len(),
            condensed.adj.len() == sccs.len(),
            f4_field(P, D1, D2C0, D2C1),
            P > 5,
            s == seqs_of(sccs@),
            in_main@ == in_component(s[main as int], nodes.len() as nat),
            forall|t: int|
                0 <= t < i && t != main ==> #[trigger] minor_joined(
                    invs@,
                    rams@,
                    nodes@,
                    in_main@,
                    *condensed,
                    main as int,
                    t,
                    s[t],
                ),
        decreases sccs.len() - i,
    {
        if i != main {
            let comp = &sccs[i];
            proof {
                assert(s[i as int] == comp@);
            }
            let from = contains_value(&condensed.adj[main], i) || has_good_path_from_main(invs, rams, nodes, &in_main, comp);
            let to = contains_value(&condensed.adj[i], main) || has_good_path_to_main(invs, rams, nodes, &in_main, comp);
            if !(from && to) {
                proof {
                    assert(!minor_joined(invs@, rams@, nodes@, in_main@, *condensed, main as int, i as int, s[i as int]));
                }
                return false;
            }
        }
        i = i + 1;
    }
    true
}

/// The connectivity analysis of the good-extension graph `ge_graph` with the
/// nodes `nodes` over the surfaces with the Igusa invariants `invs` and the
/// Rosenhain forms `rams`: its strongly connected components and their
/// condensed graph, and whether every minor component is joined to the main
/// one both ways, by an edge of the condensed graph or by a good path.
pub fn check_ge_path_connectivity<const P: u32, const D1: u32, const D2C0: u32, const D2C1: u32>(
    invs: &Vec<IgusaInvariants<Fp4<P, D1, D2C0, D2C1>>>,
    rams: &Vec<Rosenhain<Fp4<P, D1, D2C0, D2C1>>>,
    nodes: &Vec<(usize, usize)>,
    ge_graph: &DirectedGraph,
) -> (r: AnalysisResult)
    requires
        f4_field(P, D1, D2C0, D2C1),
        P > 5,
        ge_graph.wf(),
        ge_graph.n == nodes.len(),
        nodes.len() >= 1,
        edge_total(seqs_of(ge_graph.adj@)) <= usize::MAX,
    ensures
        exists|sccs: Seq<Seq<usize>>|
            #[trigger] ge_graph.is_scc_decomposition(sccs) && r.condensed_graph.n == sccs.len() && (forall|i: int, x: int|
                0 <= i < sccs.len() && 0 <= x < sccs.len() ==> (r.condensed_graph.adj@[i]@.contains(x as usize)
                    <==> #[trigger] ge_graph.condensed_edge(sccs, i, x))) && connectivity_summary(
                r,
                invs.len(),
                nodes@,
                *ge_graph,
                sccs,
                r.condensed_graph,
                ge_good_paths(invs@, rams@, nodes@, sccs, r.condensed_graph, first_largest(sccs, sccs.len() as nat)),
            ),
{
    let (sccs, condensed, _) = ge_graph.scc_and_condense();
    let ghost s = seqs_of(sccs@);
    proof {
        assert(lists_contain(s, 0));
        assert forall|i: int, k: int| 0 <= i < sccs.len() && 0 <= k < sccs@[i].len() implies #[trigger] sccs@[i]@[k] < nodes.len() by {
            assert(s[i] == sccs@[i]@);
        }
    }
    let main = largest_component(&sccs);
    let good = good_paths_between(invs, rams, nodes, &sccs, &condensed, main);
    let r = summarize_connectivity(invs.len(), nodes, ge_graph, &sccs, condensed, good);
    proof {
        assert(ge_graph.is_scc_decomposition(s));
    }
    r
}

} // verus!
