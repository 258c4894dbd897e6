//! The breadth-first exploration of the supersingular, non-superspecial
//! (2,2)-isogeny graph over `Fp4` from one surface, and its good-extension
//! graph: parallel isogenies merged into one node, a transition kept only when
//! every merged isogeny has it as a good extension.
use crate::counting::{number_of_ssg_nodes, ssg_nodes};
use crate::fp4::{d2_of, f4_field, Fp4};
use crate::fq::dmod;
use crate::good_extension::{build_good_extension_graph, retained};
use crate::graph::{seqs_of, DirectedGraph};
use crate::reachability::sorted_pairs;
use crate::rosenhain::{rosenhain_valid, IgusaInvariants, Rosenhain};
use crate::ssg::rosenhain_invariants;
use crate::ssg_graph::good_transitions_closed;
use crate::ssg_walk::{explore_surface, lemma_walk_start, ssg_obs, ssg_observations, ssg_stuck, ssg_surfaces, tview};
use crate::theta::{th_rosenhain_buildable4, Theta};
use vstd::prelude::*;

verus! {

/// A finished exploration from `start`: the surfaces found (null-points
/// `thetas`, Rosenhain forms `rams`, pairwise distinct Igusa invariants
/// `invs`, `start` first), and the fifteen isogenies out of each of them in
/// turn: `keys[15 a + m]` joins the surface `a` to the surface of the image of
/// its `m`-th isogeny, and `nexts[15 a + m]` lists in increasing order the
/// surfaces of the images of the eight good extensions of that image.
pub open spec fn ssg_explored<const P: u32, const D1: u32, const D2C0: u32, const D2C1: u32>(
    start: Rosenhain<Fp4<P, D1, D2C0, D2C1>>,
    thetas: Seq<Theta<Fp4<P, D1, D2C0, D2C1>>>,
    rams: Seq<Rosenhain<Fp4<P, D1, D2C0, D2C1>>>,
    invs: Seq<IgusaInvariants<Fp4<P, D1, D2C0, D2C1>>>,
    keys: Seq<(usize, usize)>,
    nexts: Seq<Seq<usize>>,
) -> bool {
    &&& ssg_surfaces(start, thetas, rams, invs)
    &&& ssg_observations(thetas, invs, keys, nexts, 15 * invs.len() as int)
}

/// The exploration from `start` got as far as the surface `h` and got stuck
/// there (an isogeny, a good extension or Igusa invariants cannot be
/// computed), or the list of surfaces could grow past what a `Vec` holds.
pub open spec fn ssg_walk_stuck<const P: u32, const D1: u32, const D2C0: u32, const D2C1: u32>(
    start: Rosenhain<Fp4<P, D1, D2C0, D2C1>>,
    thetas: Seq<Theta<Fp4<P, D1, D2C0, D2C1>>>,
    rams: Seq<Rosenhain<Fp4<P, D1, D2C0, D2C1>>>,
    invs: Seq<IgusaInvariants<Fp4<P, D1, D2C0, D2C1>>>,
    keys: Seq<(usize, usize)>,
    nexts: Seq<Seq<usize>>,
    h: int,
) -> bool {
    &&& ssg_surfaces(start, thetas, rams, invs)
    &&& ssg_observations(thetas, invs, keys, nexts, ssg_obs(h, 0))
    &&& 0 <= h < invs.len()
    &&& (ssg_stuck(tview(thetas[h]), dmod(D1, P), d2_of(D2C0, D2C1, P), P as int) || invs.len() + 135 >= usize::MAX)
}

/// The exploration from `start` cannot be finished: `from_rosenhain` cannot
/// build the null-point of `start`, or the walk gets stuck.
pub open spec fn ssg_explore_fails<const P: u32, const D1: u32, const D2C0: u32, const D2C1: u32>(
    start: Rosenhain<Fp4<P, D1, D2C0, D2C1>>,
) -> bool {
    ||| !th_rosenhain_buildable4(start.la@, start.mu@, start.nu@, dmod(D1, P), d2_of(D2C0, D2C1, P), P as int)
    ||| exists|
        thetas: Seq<Theta<Fp4<P, D1, D2C0, D2C1>>>,
        rams: Seq<Rosenhain<Fp4<P, D1, D2C0, D2C1>>>,
        invs: Seq<IgusaInvariants<Fp4<P, D1, D2C0, D2C1>>>,
        keys: Seq<(usize, usize)>,
        nexts: Seq<Seq<usize>>,
        h: int,
    | #[trigger] ssg_walk_stuck(start, thetas, rams, invs, keys, nexts, h)
}

/// Explore the (2,2)-isogenies breadth first from `start`: the Igusa
/// invariants of the surfaces found (the number of a surface is its
/// position), their Rosenhain forms, and for each isogeny out of each surface
/// its key `(surface, surface of the image)` and the surfaces of the images of
/// its good extensions. `None` where the exploration cannot be finished.
pub fn explore_ssg_isogenies<const P: u32, const D1: u32, const D2C0: u32, const D2C1: u32>(
    start: &Rosenhain<Fp4<P, D1, D2C0, D2C1>>,
) -> (r: Option<
    (
        Vec<IgusaInvariants<Fp4<P, D1, D2C0, D2C1>>>,
        Vec<Rosenhain<Fp4<P, D1, D2C0, D2C1>>>,
        Vec<(usize, usize)>,
        Vec<Vec<usize>>,
    ),
>)
    requires
        f4_field(P, D1, D2C0, D2C1),
        P > 5,
        rosenhain_valid(start.la@, start.mu@, start.nu@),
    ensures
        r matches Some((invs, rams, keys, nexts)) ==> exists|thetas: Seq<Theta<Fp4<P, D1, D2C0, D2C1>>>|
            #[trigger] ssg_explored(*start, thetas, rams@, invs@, keys@, seqs_of(nexts@)),
        r is None ==> ssg_explore_fails(*start),
{
    let theta0 = match Theta::<Fp4<P, D1, D2C0, D2C1>>::try_from_rosenhain(start) {
        Some(t) => t,
        None => return None,
    };
    let inv0 = match rosenhain_invariants(start) {
        Some(x) => x,
        None => {
            proof {
                assert(false);
            }
            return None;
        },
    };
    let mut invs: Vec<IgusaInvariants<Fp4<P, D1, D2C0, D2C1>>> = Vec::new();
    let mut rams: Vec<Rosenhain<Fp4<P, D1, D2C0, D2C1>>> = Vec::new();
    let mut thetas: Vec<Theta<Fp4<P, D1, D2C0, D2C1>>> = Vec::new();
    let mut keys: Vec<(usize, usize)> = Vec::new();
    let mut nexts: Vec<Vec<usize>> = Vec::new();
    invs.push(inv0);
    rams.push(*start);
    thetas.push(theta0);
    proof {
        lemma_walk_start(*start, theta0, inv0);
        assert(invs@ =~= seq![inv0]);
        assert(rams@ =~= seq![*start]);
        assert(thetas@ =~= seq![theta0]);
        assert(keys@ =~= Seq::<(usize, usize)>::empty());
        assert(seqs_of(nexts@) =~= Seq::<Seq<usize>>::empty());
    }
    let mut head: usize = 0;
    while head < invs.len()
        invariant
            f4_field(P, D1, D2C0, D2C1),
            P > 5,
            head <= invs.len(),
            ssg_surfaces(*start, thetas@, rams@, invs@),
            ssg_observations(thetas@, invs@, keys@, seqs_of(nexts@), ssg_obs(head as int, 0)),
        decreases usize::MAX - head,
    {
        if invs.len() >= usize::MAX - 135 {
            proof {
                assert(ssg_walk_stuck(*start, thetas@, rams@, invs@, keys@, seqs_of(nexts@), head as int));
            }
            return None;
        }
        let ghost (tb, rb, ib, kb, nb) = (thetas@, rams@, invs@, keys@, seqs_of(nexts@));
        if !explore_surface(start, head, &mut invs, &mut rams, &mut thetas, &mut keys, &mut nexts) {
            proof {
                assert(ssg_walk_stuck(*start, tb, rb, ib, kb, nb, head as int));
            }
            return None;
        }
        head = head + 1;
    }
    proof {
        assert(ssg_explored(*start, thetas@, rams@, invs@, keys@, seqs_of(nexts@)));
    }
    let result = Some((invs, rams, keys, nexts));
    proof {
        let (i2, r2, k2, n2) = result.unwrap();
        assert(i2@ == invs@ && r2@ == rams@ && k2@ == keys@ && n2@ == nexts@);
        assert(ssg_explored(*start, thetas@, r2@, i2@, k2@, seqs_of(n2@)));
    }
    result
}

/// What the good-extension graph explored from `start` consists of: a
/// finished exploration with as many surfaces as there are supersingular,
/// non-superspecial ones, and the graph that `build_good_extension_graph`
/// makes of its isogenies.
pub open spec fn ssg_good_extension<const P: u32, const D1: u32, const D2C0: u32, const D2C1: u32>(
    start: Rosenhain<Fp4<P, D1, D2C0, D2C1>>,
    thetas: Seq<Theta<Fp4<P, D1, D2C0, D2C1>>>,
    rams: Seq<Rosenhain<Fp4<P, D1, D2C0, D2C1>>>,
    invs: Seq<IgusaInvariants<Fp4<P, D1, D2C0, D2C1>>>,
    keys: Seq<(usize, usize)>,
    nexts: Seq<Seq<usize>>,
    nodes: Seq<(usize, usize)>,
    g: DirectedGraph,
) -> bool {
    &&& ssg_explored(start, thetas, rams, invs, keys, nexts)
    &&& invs.len() == ssg_nodes(P as int)
    &&& sorted_pairs(nodes)
    &&& forall|x: (usize, usize)| #[trigger] nodes.contains(x) <==> keys.contains(x)
    &&& g.wf()
    &&& g.n == nodes.len()
    &&& forall|a: int, b: usize|
        0 <= a < nodes.len() ==> (#[trigger] g.adj@[a]@.contains(b) <==> (b < nodes.len() && nodes[b as int].0 == nodes[a].1
            && retained(keys, nexts, nodes[a], nodes[b as int].1)))
}

/// Every transition that the good-extension graph of `keys` and `nexts` keeps
/// leads to a node that occurs.
pub open spec fn ge_transitions_closed(keys: Seq<(usize, usize)>, nexts: Seq<Seq<usize>>) -> bool {
    forall|i: int, w: usize| 0 <= i < keys.len() && #[trigger] retained(keys, nexts, keys[i], w) ==> keys.contains((keys[i].1, w))
}

/// The good-extension graph of the supersingular, non-superspecial surfaces
/// over `Fp4`, explored from the surface of `start`: the Igusa invariants of
/// the surfaces (the number of a surface is its position), their Rosenhain
/// forms, the nodes of the graph and the graph. `None` where the exploration
/// cannot be finished, where it finds another number of surfaces than there
/// are supersingular, non-superspecial ones, or where a kept transition leads
/// to no node.
pub fn compute_ssg_good_extension_graph<const P: u32, const D1: u32, const D2C0: u32, const D2C1: u32>(
    start: &Rosenhain<Fp4<P, D1, D2C0, D2C1>>,
) -> (r: Option<
    (
        Vec<IgusaInvariants<Fp4<P, D1, D2C0, D2C1>>>,
        Vec<Rosenhain<Fp4<P, D1, D2C0, D2C1>>>,
        Vec<(usize, usize)>,
        DirectedGraph,
    ),
>)
    requires
        f4_field(P, D1, D2C0, D2C1),
        P > 5,
        rosenhain_valid(start.la@, start.mu@, start.nu@),
        (P as int) * (P as int) * ((P as int) * (P as int)) * ((P as int) * (P as int)) <= u128::MAX,
    ensures
        r matches Some((invs, rams, nodes, g)) ==> exists|
            thetas: Seq<Theta<Fp4<P, D1, D2C0, D2C1>>>,
            keys: Seq<(usize, usize)>,
            nexts: Seq<Seq<usize>>,
        | #[trigger] ssg_good_extension(*start, thetas, rams@, invs@, keys, nexts, nodes@, g),
        r is None ==> ssg_explore_fails(*start) || exists|
            thetas: Seq<Theta<Fp4<P, D1, D2C0, D2C1>>>,
            rams: Seq<Rosenhain<Fp4<P, D1, D2C0, D2C1>>>,
            invs: Seq<IgusaInvariants<Fp4<P, D1, D2C0, D2C1>>>,
            keys: Seq<(usize, usize)>,
            nexts: Seq<Seq<usize>>,
        | #[trigger] ssg_explored(*start, thetas, rams, invs, keys, nexts) && (invs.len() != ssg_nodes(P as int)
            || !ge_transitions_closed(keys, nexts)),
{
    let num_j = number_of_ssg_nodes(P);
    let (invs, rams, keys, nexts) = match explore_ssg_isogenies(start) {
        Some(x) => x,
        None => return None,
    };
    let ghost thetas = choose|thetas: Seq<Theta<Fp4<P, D1, D2C0, D2C1>>>|
        #[trigger] ssg_explored(*start, thetas, rams@, invs@, keys@, seqs_of(nexts@));
    proof {
        reveal(ssg_observations);
    }
    if (invs.len() as u128) != num_j {
        return None;
    }
    if !good_transitions_closed(&keys, &nexts) {
        return None;
    }
    let (nodes, g) = build_good_extension_graph(&keys, &nexts);
    let result = Some((invs, rams, nodes, g));
    proof {
        let (i2, r2, n2, g2) = result.unwrap();
        assert(i2@ == invs@ && r2@ == rams@ && n2@ == nodes@ && g2 == g);
        assert(ssg_good_extension(*start, thetas, r2@, i2@, keys@, seqs_of(nexts@), n2@, g2));
    }
    result
}

} // verus!
