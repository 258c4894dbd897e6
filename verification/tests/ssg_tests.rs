use g2_isogeny::curves::Rosenhain;
use g2_isogeny::fq::{Fp, Fp2, Fp4};
use g2_isogeny::ssg::{find_invariants, rosenhain_invariants, surface_invariants};
use g2_isogeny::ssg_graph::{contains_pair, good_transitions_closed};
use g2_isogeny::counting::number_of_ssg_nodes;
use g2_isogeny::good_paths::{check_ge_path_connectivity, has_good_path_from_main, has_good_path_to_main};
use g2_isogeny::ssg_explore::{compute_ssg_good_extension_graph, explore_ssg_isogenies};
use g2_isogeny::ssg_random::{generate_ssg_rosenhain, roots_in_fp4, ssg_candidate_quintic};
use g2_isogeny::ssg_start::{primitive_fifth_root, rosenhain_from_roots};
use g2_isogeny::theta::Theta;

const P: u32 = 17;
const D1: u32 = 3;
const D2C0: u32 = 0;
const D2C1: u32 = 1;

type F2 = Fp2<P, D1>;
type F4 = Fp4<P, D1, D2C0, D2C1>;

fn c4(v: u32) -> F4 {
    F4::new(F2::new(Fp::<P>::new(v), Fp::<P>::zero()), F2::zero())
}

#[test]
fn try_from_rosenhain_builds_the_same_null_point() {
    let ram = Rosenhain::new(c4(2), c4(3), c4(4));
    assert_eq!(Theta::<F4>::try_from_rosenhain(&ram), Some(Theta::<F4>::from_rosenhain(&ram)));
}

#[test]
fn try_from_rosenhain_refuses_a_zero_lambda() {
    let ram = Rosenhain::new(c4(0), c4(3), c4(4));
    assert_eq!(Theta::<F4>::try_from_rosenhain(&ram), None);
}

#[test]
fn try_from_rosenhain_refuses_mu_one() {
    let ram = Rosenhain::new(c4(2), c4(1), c4(4));
    assert_eq!(Theta::<F4>::try_from_rosenhain(&ram), None);
}

#[test]
fn every_twoisogeny_of_theta_234_is_defined() {
    let th = Theta::<F4>::from_rosenhain(&Rosenhain::new(c4(2), c4(3), c4(4)));
    for m in 0..15 {
        assert!(th.twoisogeny_defined(m));
    }
}

#[test]
fn surface_invariants_recover_the_rosenhain_form() {
    let ram = Rosenhain::new(c4(2), c4(3), c4(4));
    let th = Theta::<F4>::from_rosenhain(&ram);
    let (ram2, inv) = surface_invariants(&th).unwrap();
    assert_eq!(ram2, ram);
    assert_eq!(inv, ram.igusa_invariants());
}

#[test]
fn surface_invariants_refuse_a_zero_denominator() {
    let th = Theta::<F4> { null: [F4::zero(); 10] };
    assert_eq!(surface_invariants(&th), None);
}

#[test]
fn find_invariants_gives_the_position() {
    let a = Rosenhain::new(c4(2), c4(3), c4(4)).igusa_invariants();
    let b = Rosenhain::new(c4(5), c4(7), c4(11)).igusa_invariants();
    let invs = vec![a, b];
    assert_eq!(find_invariants(&invs, &b), Some(1));
    assert_eq!(find_invariants(&invs, &a), Some(0));
    assert_eq!(find_invariants(&vec![a], &b), None);
}

#[test]
fn contains_pair_looks_for_the_pair() {
    let keys = vec![(0, 1), (2, 3)];
    assert!(contains_pair(&keys, (2, 3)));
    assert!(!contains_pair(&keys, (3, 2)));
}

#[test]
fn kept_transitions_to_existing_nodes_are_closed() {
    let keys = vec![(0, 1), (1, 0)];
    let nexts = vec![vec![0], vec![1]];
    assert!(good_transitions_closed(&keys, &nexts));
}

#[test]
fn a_kept_transition_to_a_missing_node_is_not_closed() {
    let keys = vec![(0, 1)];
    let nexts = vec![vec![2]];
    assert!(!good_transitions_closed(&keys, &nexts));
}

#[test]
fn parallel_isogenies_keep_only_shared_transitions() {
    let keys = vec![(0, 1), (0, 1)];
    let nexts = vec![vec![2], vec![3]];
    assert!(good_transitions_closed(&keys, &nexts));
}

type G2 = Fp2<7, 3>;
type G4 = Fp4<7, 3, 1, 1>;

/// The Rosenhain form of y^2 = x^5 - 1 over F_{7^4}, from its roots
/// 1, z, z^2, z^3, z^4 with z a primitive fifth root of unity.
fn quintic_start() -> Rosenhain<G4> {
    let one = G4::one();
    let mut z = one;
    'search: for a in 0..7u32 {
        for b in 0..7u32 {
            let x = G4::new(G2::new(Fp::<7>::new(a), Fp::<7>::new(b)), G2::new(Fp::<7>::new(1), Fp::<7>::zero()));
            let c = x.pow(480);
            if c != one {
                z = c;
                break 'search;
            }
        }
    }
    assert_eq!(z.pow(5), one);
    let den = z.sub(one).inv();
    let z2 = z.mul(z);
    let z3 = z2.mul(z);
    let z4 = z3.mul(z);
    Rosenhain::new(z2.sub(one).mul(den), z3.sub(one).mul(den), z4.sub(one).mul(den))
}

#[test]
fn exploration_from_the_quintic_finds_every_surface_for_p7() {
    let start = quintic_start();
    let (invs, rams, keys, nexts) = explore_ssg_isogenies(&start).unwrap();
    assert_eq!(invs.len() as u128, number_of_ssg_nodes(7));
    assert_eq!(invs.len(), 40);
    assert_eq!(rams[0], start);
    assert_eq!(invs[0], start.igusa_invariants());
    assert_eq!(keys.len(), 15 * invs.len());
    assert_eq!(nexts.len(), keys.len());
    for (k, key) in keys.iter().enumerate() {
        assert_eq!(key.0, k / 15);
        assert!(key.1 < invs.len());
        assert!(nexts[k].windows(2).all(|w| w[0] < w[1]));
        assert!(!nexts[k].is_empty() && nexts[k].len() <= 8);
    }
    for i in 0..invs.len() {
        for j in 0..i {
            assert_ne!(invs[i], invs[j]);
        }
    }
}

#[test]
fn good_extension_graph_for_p7_has_all_surfaces() {
    let start = quintic_start();
    let (invs, rams, nodes, g) = compute_ssg_good_extension_graph(&start).unwrap();
    assert_eq!(invs.len(), 40);
    assert_eq!(rams.len(), 40);
    assert_eq!(g.n, nodes.len());
    assert!(nodes.windows(2).all(|w| w[0] < w[1]));
    let result = check_ge_path_connectivity(&invs, &rams, &nodes, &g);
    assert_eq!(result.jacobian_count, 40);
    assert_eq!(result.vertex_count, nodes.len());
    assert_eq!(result.scc_count, result.condensed_graph.n);
    assert_eq!(result.is_strongly_connected, result.scc_count == 1);
}

#[test]
fn primitive_fifth_root_for_p7_has_order_five() {
    let z = primitive_fifth_root::<7, 3, 1, 1>().unwrap();
    assert_ne!(z, G4::one());
    assert_eq!(z.pow(5), G4::one());
}

#[test]
fn rosenhain_from_roots_sends_the_first_two_roots_to_zero_and_one() {
    let c = |v: u32| G4::new(G2::new(Fp::<7>::new(v), Fp::<7>::zero()), G2::zero());
    // roots 1, 2, 3, 4, 5: la = 2/1, mu = 3/1, nu = 4/1
    let ram = rosenhain_from_roots(&[c(1), c(2), c(3), c(4), c(5)]).unwrap();
    assert_eq!(ram, Rosenhain::new(c(2), c(3), c(4)));
    assert_eq!(rosenhain_from_roots(&[c(1), c(1), c(3), c(4), c(5)]), None);
}

#[test]
fn generated_start_for_p7_explores_every_surface() {
    let start = generate_ssg_rosenhain::<7, 3, 1, 1>().unwrap();
    let (invs, _, _, _) = explore_ssg_isogenies(&start).unwrap();
    assert_eq!(invs.len(), 40);
}

#[test]
fn a_random_start_is_generated_for_p11() {
    let start = generate_ssg_rosenhain::<11, 2, 1, 1>().unwrap();
    assert!(rosenhain_invariants(&start).is_some());
    assert!(Theta::<Fp4<11, 2, 1, 1>>::try_from_rosenhain(&start).is_some());
}

#[test]
fn candidate_quintic_for_p11_agrees_with_its_roots() {
    // x^5 - 1 over F_11 splits into distinct roots, and 11 = 1 (mod 5): the
    // curve y^2 = x^5 - 1 is ordinary there, so it is no candidate.
    let m1 = Fp::<11>::new(10);
    let z = Fp::<11>::zero();
    assert!(!ssg_candidate_quintic([m1, z, z, z]));
}

#[test]
fn roots_in_fp4_of_x5_minus_1_for_p7() {
    let m1 = Fp::<7>::new(6);
    let z = Fp::<7>::zero();
    let one = Fp::<7>::one();
    let roots = roots_in_fp4::<7, 3, 1, 1>(&vec![m1, z, z, z, z, one], 10);
    assert_eq!(roots.len(), 5);
    for r in &roots {
        assert_eq!(r.pow(5), G4::one());
    }
}

#[test]
fn an_empty_component_has_no_good_path() {
    let start = quintic_start();
    let invs = vec![start.igusa_invariants()];
    let rams = vec![start];
    let nodes = vec![(0, 0)];
    let in_main = vec![true];
    assert!(!has_good_path_from_main(&invs, &rams, &nodes, &in_main, &vec![]));
    assert!(!has_good_path_to_main(&invs, &rams, &nodes, &in_main, &vec![]));
}

#[test]
fn a_node_out_of_range_has_no_good_path() {
    let start = quintic_start();
    let invs = vec![start.igusa_invariants()];
    let rams = vec![start];
    let nodes = vec![(0, 0)];
    let in_main = vec![true];
    assert!(!has_good_path_to_main(&invs, &rams, &nodes, &in_main, &vec![5]));
    assert!(!has_good_path_from_main(&invs, &rams, &nodes, &in_main, &vec![5]));
}
